//! Topic matching: which subscription topics a published topic reaches.
//!
//! A topic is a list of fragments. A word fragment matches the identical word,
//! `*` matches exactly one fragment and `**` matches any number of fragments,
//! none included. Wildcards may stand in subscriptions and in published topics
//! alike: a publication reaches a subscription when some topic made of words is
//! matched by both.
use vstd::prelude::*;
use crate::topic::{TopicPath, wildcard, double_wildcard, strings_view, is_wildcard};

verus! {

/// Whether the pattern `p` matches the topic `w`, fragment by fragment: a word
/// matches the same word, `*` any one fragment, `**` any number of fragments.
pub open spec fn pattern_matches(p: TopicPath, w: TopicPath) -> bool
    decreases p.len() + w.len(),
{
    if p.len() == 0 {
        w.len() == 0
    } else if p[0] == double_wildcard() {
        pattern_matches(p.drop_first(), w) || (w.len() > 0 && pattern_matches(p, w.drop_first()))
    } else {
        w.len() > 0 && (p[0] == wildcard() || p[0] == w[0]) && pattern_matches(
            p.drop_first(),
            w.drop_first(),
        )
    }
}

/// A topic made of words only: no fragment is a wildcard.
pub open spec fn is_word_topic(w: TopicPath) -> bool {
    forall|i: int| 0 <= i < w.len() ==> !is_wildcard(#[trigger] w[i])
}

/// Two single-fragment patterns (neither is `**`) can match the same word.
pub open spec fn fragments_meet(a: Seq<char>, b: Seq<char>) -> bool {
    a == b || a == wildcard() || b == wildcard()
}

/// Whether the subscription pattern `s` and the published pattern `t` match a
/// common topic of words: a `**` on either side takes none or more of the
/// other side's fragments, and single fragments must meet.
pub open spec fn topic_matches(s: TopicPath, t: TopicPath) -> bool
    decreases s.len() + t.len(),
{
    if s.len() > 0 && s[0] == double_wildcard() {
        topic_matches(s.drop_first(), t) || (t.len() > 0 && topic_matches(s, t.drop_first()))
    } else if t.len() > 0 && t[0] == double_wildcard() {
        topic_matches(s, t.drop_first()) || (s.len() > 0 && topic_matches(s.drop_first(), t))
    } else if s.len() == 0 || t.len() == 0 {
        s.len() == 0 && t.len() == 0
    } else {
        fragments_meet(s[0], t[0]) && topic_matches(s.drop_first(), t.drop_first())
    }
}

/// Whether a subscription on `sub` receives what is published on `published`.
pub open spec fn subscription_matches(sub: TopicPath, published: TopicPath) -> bool {
    topic_matches(sub, published)
}

/// Whether `s` is the fragment `*`.
pub fn is_wildcard_exec(s: &String) -> (b: bool)
    ensures
        b == (s@ == wildcard()),
{
    let n = s.as_str().unicode_len();
    if n == 1 && s.as_str().get_char(0) == '*' {
        assert(s@ =~= wildcard());
        true
    } else {
        assert(s@ != wildcard()) by {
            if s@ == wildcard() {
                assert(s@[0] == '*');
            }
        }
        false
    }
}

/// Whether `s` is the fragment `**`.
pub fn is_double_wildcard_exec(s: &String) -> (b: bool)
    ensures
        b == (s@ == double_wildcard()),
{
    let n = s.as_str().unicode_len();
    if n == 2 && s.as_str().get_char(0) == '*' && s.as_str().get_char(1) == '*' {
        assert(s@ =~= double_wildcard());
        true
    } else {
        assert(s@ != double_wildcard()) by {
            if s@ == double_wildcard() {
                assert(s@[0] == '*' && s@[1] == '*');
            }
        }
        false
    }
}

proof fn lemma_skip_next(v: Seq<String>, i: int)
    requires
        0 <= i < v.len(),
    ensures
        strings_view(v).skip(i).len() > 0,
        strings_view(v).skip(i)[0] == v[i]@,
        strings_view(v).skip(i).drop_first() == strings_view(v).skip(i + 1),
{
    assert(strings_view(v).skip(i).drop_first() =~= strings_view(v).skip(i + 1));
}

fn fragments_meet_exec(a: &String, b: &String) -> (r: bool)
    ensures
        r == fragments_meet(a@, b@),
{
    *a == *b || is_wildcard_exec(a) || is_wildcard_exec(b)
}

fn matches_from(sub: &[String], si: usize, topic: &[String], ti: usize) -> (b: bool)
    requires
        si <= sub@.len(),
        ti <= topic@.len(),
    ensures
        b == topic_matches(strings_view(sub@).skip(si as int), strings_view(topic@).skip(ti as int)),
    decreases (sub@.len() - si) + (topic@.len() - ti),
{
    let ghost s = strings_view(sub@).skip(si as int);
    let ghost t = strings_view(topic@).skip(ti as int);
    proof {
        if si < sub@.len() {
            lemma_skip_next(sub@, si as int);
        }
        if ti < topic@.len() {
            lemma_skip_next(topic@, ti as int);
        }
    }
    if si < sub.len() && is_double_wildcard_exec(&sub[si]) {
        matches_from(sub, si + 1, topic, ti) || (ti < topic.len() && matches_from(sub, si, topic, ti + 1))
    } else if ti < topic.len() && is_double_wildcard_exec(&topic[ti]) {
        matches_from(sub, si, topic, ti + 1) || (si < sub.len() && matches_from(sub, si + 1, topic, ti))
    } else if si == sub.len() || ti == topic.len() {
        si == sub.len() && ti == topic.len()
    } else {
        fragments_meet_exec(&sub[si], &topic[ti]) && matches_from(sub, si + 1, topic, ti + 1)
    }
}

/// Whether a subscription on `sub` receives what is published on `published`.
pub fn subscription_matches_exec(sub: &[String], published: &[String]) -> (b: bool)
    ensures
        b == subscription_matches(strings_view(sub@), strings_view(published@)),
{
    assert(strings_view(sub@).skip(0) =~= strings_view(sub@));
    assert(strings_view(published@).skip(0) =~= strings_view(published@));
    matches_from(sub, 0, published, 0)
}

/// Every topic reaches subscriptions on the identical topic.
pub proof fn lemma_matches_itself(t: TopicPath)
    ensures
        subscription_matches(t, t),
    decreases t.len(),
{
    if t.len() > 0 {
        let r = t.drop_first();
        lemma_matches_itself(r);
        if t[0] == double_wildcard() {
            if r.len() > 0 && r[0] == double_wildcard() {
                assert(topic_matches(r, r.drop_first()) || topic_matches(r.drop_first(), r)
                    || topic_matches(r, t.drop_first()));
                assert(topic_matches(r, t));
            } else {
                assert(topic_matches(r, t));
            }
        }
    }
}

proof fn lemma_drop_first_word_topic(w: TopicPath)
    requires
        is_word_topic(w),
        w.len() > 0,
    ensures
        is_word_topic(w.drop_first()),
        !is_wildcard(w[0]),
{
    assert forall|i: int| 0 <= i < w.drop_first().len() implies !is_wildcard(
        #[trigger] w.drop_first()[i],
    ) by {
        assert(w.drop_first()[i] == w[i + 1]);
    }
}

/// Against a published topic of words, matching is the pattern matching of
/// the subscription: word by word, `*` for one fragment, `**` for any number.
pub proof fn lemma_matches_word_topic(s: TopicPath, t: TopicPath)
    requires
        is_word_topic(t),
    ensures
        subscription_matches(s, t) == pattern_matches(s, t),
    decreases s.len() + t.len(),
{
    if t.len() > 0 {
        lemma_drop_first_word_topic(t);
        lemma_matches_word_topic(s, t.drop_first());
    }
    if s.len() > 0 {
        lemma_matches_word_topic(s.drop_first(), t);
        if t.len() > 0 {
            lemma_matches_word_topic(s.drop_first(), t.drop_first());
        }
    }
}

/// A topic of words that both patterns match, when they match each other.
proof fn lemma_common_topic(s: TopicPath, t: TopicPath) -> (w: TopicPath)
    requires
        topic_matches(s, t),
    ensures
        is_word_topic(w),
        pattern_matches(s, w),
        pattern_matches(t, w),
    decreases s.len() + t.len(),
{
    let a: Seq<char> = seq!['a'];
    assert(!is_wildcard(a)) by {
        assert(a[0] != '*');
        assert(wildcard()[0] == '*');
        assert(double_wildcard()[0] == '*');
    }
    if s.len() > 0 && s[0] == double_wildcard() {
        if topic_matches(s.drop_first(), t) {
            lemma_common_topic(s.drop_first(), t)
        } else {
            let w1 = lemma_common_topic(s, t.drop_first());
            if t[0] == double_wildcard() {
                w1
            } else {
                let x = if t[0] == wildcard() { a } else { t[0] };
                let w = seq![x] + w1;
                assert(w.drop_first() =~= w1);
                assert(!is_wildcard(x));
                assert forall|i: int| 0 <= i < w.len() implies !is_wildcard(#[trigger] w[i]) by {
                    if i > 0 {
                        assert(w[i] == w1[i - 1]);
                    }
                }
                w
            }
        }
    } else if t.len() > 0 && t[0] == double_wildcard() {
        if topic_matches(s, t.drop_first()) {
            lemma_common_topic(s, t.drop_first())
        } else {
            let w1 = lemma_common_topic(s.drop_first(), t);
            let x = if s[0] == wildcard() { a } else { s[0] };
            let w = seq![x] + w1;
            assert(w.drop_first() =~= w1);
            assert(!is_wildcard(x));
            assert forall|i: int| 0 <= i < w.len() implies !is_wildcard(#[trigger] w[i]) by {
                if i > 0 {
                    assert(w[i] == w1[i - 1]);
                }
            }
            w
        }
    } else if s.len() == 0 || t.len() == 0 {
        Seq::empty()
    } else {
        let w1 = lemma_common_topic(s.drop_first(), t.drop_first());
        let x = if s[0] == wildcard() {
            if t[0] == wildcard() { a } else { t[0] }
        } else {
            s[0]
        };
        let w = seq![x] + w1;
        assert(w.drop_first() =~= w1);
        assert(!is_wildcard(x));
        assert forall|i: int| 0 <= i < w.len() implies !is_wildcard(#[trigger] w[i]) by {
            if i > 0 {
                assert(w[i] == w1[i - 1]);
            }
        }
        w
    }
}

/// Patterns that match a common topic of words match each other.
proof fn lemma_common_topic_matches(s: TopicPath, t: TopicPath, w: TopicPath)
    requires
        is_word_topic(w),
        pattern_matches(s, w),
        pattern_matches(t, w),
    ensures
        topic_matches(s, t),
    decreases s.len() + t.len() + w.len(),
{
    if w.len() > 0 {
        lemma_drop_first_word_topic(w);
    }
    if s.len() > 0 && s[0] == double_wildcard() {
        if pattern_matches(s.drop_first(), w) {
            lemma_common_topic_matches(s.drop_first(), t, w);
        } else if t.len() > 0 && t[0] == double_wildcard() {
            if pattern_matches(t, w.drop_first()) {
                lemma_common_topic_matches(s, t, w.drop_first());
            } else {
                lemma_common_topic_matches(s, t.drop_first(), w);
            }
        } else {
            lemma_common_topic_matches(s, t.drop_first(), w.drop_first());
        }
    } else if t.len() > 0 && t[0] == double_wildcard() {
        if pattern_matches(t.drop_first(), w) {
            lemma_common_topic_matches(s, t.drop_first(), w);
        } else {
            lemma_common_topic_matches(s.drop_first(), t, w.drop_first());
        }
    } else if s.len() == 0 || t.len() == 0 {
    } else {
        lemma_common_topic_matches(s.drop_first(), t.drop_first(), w.drop_first());
    }
}

/// What matching means: a publication on `t` reaches a subscription on `s`
/// exactly when some topic made of words is matched by both patterns.
pub proof fn lemma_matches_iff_common_topic(s: TopicPath, t: TopicPath)
    ensures
        subscription_matches(s, t) <==> exists|w: TopicPath|
            #![trigger pattern_matches(s, w), pattern_matches(t, w)]
            is_word_topic(w) && pattern_matches(s, w) && pattern_matches(t, w),
{
    if subscription_matches(s, t) {
        let w = lemma_common_topic(s, t);
        assert(is_word_topic(w) && pattern_matches(s, w) && pattern_matches(t, w));
    }
    if exists|w: TopicPath|
        #![trigger pattern_matches(s, w), pattern_matches(t, w)]
        is_word_topic(w) && pattern_matches(s, w) && pattern_matches(t, w) {
        let w = choose|w: TopicPath|
            #![trigger pattern_matches(s, w), pattern_matches(t, w)]
            is_word_topic(w) && pattern_matches(s, w) && pattern_matches(t, w);
        lemma_common_topic_matches(s, t, w);
    }
}

/// Between topics made of words only, matching is equality.
pub proof fn lemma_words_match_exactly(s: TopicPath, t: TopicPath)
    requires
        is_word_topic(s),
        is_word_topic(t),
    ensures
        subscription_matches(s, t) <==> s == t,
    decreases t.len(),
{
    if t.len() > 0 && s.len() > 0 {
        lemma_drop_first_word_topic(s);
        lemma_drop_first_word_topic(t);
        let s1 = s.drop_first();
        let t1 = t.drop_first();
        lemma_words_match_exactly(s1, t1);
        if s == t {
            assert(s[0] == t[0]);
            assert(s1 == t1);
        }
        if s[0] == t[0] && s1 == t1 {
            assert(s =~= seq![s[0]] + s1);
            assert(t =~= seq![t[0]] + t1);
        }
    } else if t.len() > 0 {
        lemma_drop_first_word_topic(t);
        assert(s != t);
    } else if s.len() > 0 {
        lemma_drop_first_word_topic(s);
        assert(s != t);
    } else {
        assert(s =~= t);
    }
}

/// A subscription on `**` receives what is published on any topic.
pub proof fn lemma_double_wildcard_subscription(t: TopicPath)
    ensures
        subscription_matches(seq![double_wildcard()], t),
    decreases t.len(),
{
    let s = seq![double_wildcard()];
    let e = Seq::<Seq<char>>::empty();
    assert(s[0] == double_wildcard());
    assert(s.drop_first() =~= e);
    if t.len() > 0 {
        lemma_double_wildcard_subscription(t.drop_first());
    } else {
        assert(topic_matches(e, t));
    }
}

/// A `**` in a subscription takes any number of fragments, none included:
/// whatever `rest` receives, `**` followed by `rest` receives also behind any
/// fragments `m`.
pub proof fn lemma_double_wildcard_takes_any(rest: TopicPath, m: TopicPath, t: TopicPath)
    requires
        subscription_matches(rest, t),
    ensures
        subscription_matches(seq![double_wildcard()] + rest, m + t),
    decreases m.len(),
{
    let s = seq![double_wildcard()] + rest;
    assert(s[0] == double_wildcard());
    assert(s.drop_first() =~= rest);
    if m.len() == 0 {
        assert(m + t =~= t);
    } else {
        lemma_double_wildcard_takes_any(rest, m.drop_first(), t);
        assert((m + t).drop_first() =~= m.drop_first() + t);
    }
}

/// A word, or `*`, followed by `rest` receives what `rest` receives behind a
/// fragment it meets: the same word, any word for `*`, or `*`.
pub proof fn lemma_fragment_then(f: Seq<char>, g: Seq<char>, rest: TopicPath, t: TopicPath)
    requires
        f != double_wildcard(),
        g != double_wildcard(),
        fragments_meet(f, g),
        subscription_matches(rest, t),
    ensures
        subscription_matches(seq![f] + rest, seq![g] + t),
{
    assert((seq![f] + rest).drop_first() =~= rest);
    assert((seq![g] + t).drop_first() =~= t);
}

/// A subscription on `*` receives what is published on any one-fragment topic.
pub proof fn lemma_wildcard_subscription(f: Seq<char>)
    ensures
        subscription_matches(seq![wildcard()], seq![f]),
{
    let s = seq![wildcard()];
    let t = seq![f];
    let e = Seq::<Seq<char>>::empty();
    assert(s.drop_first() =~= e);
    assert(t.drop_first() =~= e);
    assert(topic_matches(e, e));
    assert(wildcard().len() != double_wildcard().len());
    assert(s[0] == wildcard());
    if f == double_wildcard() {
        assert(t[0] == double_wildcard());
        assert(topic_matches(e, t));
    } else {
        assert(fragments_meet(s[0], t[0]));
    }
}

/// Publishing on `*` reaches every one-fragment subscription.
pub proof fn lemma_wildcard_publication(f: Seq<char>)
    ensures
        subscription_matches(seq![f], seq![wildcard()]),
{
    let s = seq![f];
    let t = seq![wildcard()];
    let e = Seq::<Seq<char>>::empty();
    assert(s.drop_first() =~= e);
    assert(t.drop_first() =~= e);
    assert(topic_matches(e, e));
    assert(wildcard().len() != double_wildcard().len());
    assert(t[0] == wildcard());
    if f == double_wildcard() {
        assert(s[0] == double_wildcard());
        assert(topic_matches(s, e));
    } else {
        assert(fragments_meet(s[0], t[0]));
    }
}

} // verus!
