//! Topic strings: their grammar, splitting into fragments, and prefixing.
//!
//! A topic is a non-empty sequence of fragments separated by `/`. Each fragment
//! is a word of `a-z`, `0-9` and `_`, the wildcard `*` or the double wildcard `**`.
use vstd::prelude::*;
use vstd::string::*;
use crate::err::{BusError, BusResult};

verus! {

/// A topic split into its fragments.
pub type TopicPath = Seq<Seq<char>>;

pub open spec fn is_word_char(c: char) -> bool {
    ('a' <= c && c <= 'z') || ('0' <= c && c <= '9') || c == '_'
}

/// The fragment `*`.
pub open spec fn wildcard() -> Seq<char> {
    seq!['*']
}

/// The fragment `**`.
pub open spec fn double_wildcard() -> Seq<char> {
    seq!['*', '*']
}

pub open spec fn is_wildcard(f: Seq<char>) -> bool {
    f == wildcard() || f == double_wildcard()
}

pub open spec fn is_word(f: Seq<char>) -> bool {
    f.len() > 0 && forall|i: int| 0 <= i < f.len() ==> is_word_char(#[trigger] f[i])
}

pub open spec fn is_valid_fragment(f: Seq<char>) -> bool {
    is_wildcard(f) || is_word(f)
}

/// `s` split at every `sep`, as `str::split(sep)` splits it: the result always
/// has one more element than `s` has separators.
pub open spec fn split_chars(s: Seq<char>, sep: char) -> Seq<Seq<char>>
    decreases s.len(),
{
    if s.len() == 0 {
        seq![Seq::<char>::empty()]
    } else {
        let init = split_chars(s.drop_last(), sep);
        if s.last() == sep {
            init.push(Seq::<char>::empty())
        } else {
            init.update(init.len() - 1, init.last().push(s.last()))
        }
    }
}

/// `s` split at every `/`.
pub open spec fn split_topic(s: Seq<char>) -> TopicPath {
    split_chars(s, '/')
}

/// The topic grammar: one or more valid fragments separated by `/`.
pub open spec fn is_valid_topic(s: Seq<char>) -> bool {
    forall|i: int| 0 <= i < split_topic(s).len() ==> is_valid_fragment(#[trigger] split_topic(s)[i])
}

/// The view of a vector of strings as a sequence of character sequences.
pub open spec fn strings_view(v: Seq<String>) -> TopicPath {
    v.map_values(|s: String| s@)
}

/// `prefix/topic`, or `prefix` alone when `topic` is empty.
pub open spec fn prefixed(prefix: Seq<char>, topic: Seq<char>) -> Seq<char> {
    if topic.len() == 0 {
        prefix
    } else {
        prefix + seq!['/'] + topic
    }
}

/// The fragments of `p` joined with `/`, as `[..].join("/")` joins them.
pub open spec fn join_topic(p: TopicPath) -> Seq<char>
    decreases p.len(),
{
    if p.len() == 0 {
        Seq::empty()
    } else if p.len() == 1 {
        p[0]
    } else {
        join_topic(p.drop_last()) + seq!['/'] + p.last()
    }
}

/// What follows the first `/` of `s`.
pub open spec fn after_first_slash(s: Seq<char>) -> Seq<char>
    decreases s.len(),
{
    if s.len() == 0 {
        s
    } else if s[0] == '/' {
        s.drop_first()
    } else {
        after_first_slash(s.drop_first())
    }
}

pub proof fn lemma_split_nonempty(s: Seq<char>, sep: char)
    ensures
        split_chars(s, sep).len() >= 1,
    decreases s.len(),
{
    if s.len() > 0 {
        lemma_split_nonempty(s.drop_last(), sep);
    }
}

/// The text of the error that an invalid topic string gives.
pub open spec fn invalid_topic_message(s: Seq<char>) -> Seq<char> {
    "Invalid topic string: "@ + s
}

fn is_word_char_exec(c: char) -> (b: bool)
    ensures
        b == is_word_char(c),
{
    ('a' <= c && c <= 'z') || ('0' <= c && c <= '9') || c == '_'
}

/// Whether `f` is a valid fragment.
pub fn is_valid_fragment_exec(f: &str) -> (b: bool)
    ensures
        b == is_valid_fragment(f@),
{
    let n = f.unicode_len();
    if n == 0 {
        return false;
    }
    if n == 1 && f.get_char(0) == '*' {
        assert(f@ =~= wildcard());
        return true;
    }
    if n == 2 && f.get_char(0) == '*' && f.get_char(1) == '*' {
        assert(f@ =~= double_wildcard());
        return true;
    }
    assert(f@ != wildcard()) by {
        if f@ == wildcard() {
            assert(f@[0] == '*');
        }
    }
    assert(f@ != double_wildcard()) by {
        if f@ == double_wildcard() {
            assert(f@[0] == '*' && f@[1] == '*');
        }
    }
    let mut i: usize = 0;
    while i < n
        invariant
            f@ != wildcard(),
            f@ != double_wildcard(),
            n == f@.len(),
            i <= n,
            forall|j: int| 0 <= j < i ==> is_word_char(#[trigger] f@[j]),
        decreases n - i,
    {
        if !is_word_char_exec(f.get_char(i)) {
            assert(!is_word_char(f@[i as int]));
            return false;
        }
        i = i + 1;
    }
    true
}

/// Splits `s` at every `sep`.
pub fn split_chars_exec(s: &str, sep: char) -> (r: Vec<String>)
    ensures
        strings_view(r@) == split_chars(s@, sep),
{
    let n = s.unicode_len();
    let mut done: Vec<String> = Vec::new();
    let mut start: usize = 0;
    let mut i: usize = 0;
    assert(s@.subrange(0, 0) =~= Seq::<char>::empty());
    assert(strings_view(done@) =~= Seq::<Seq<char>>::empty());
    assert(split_chars(Seq::<char>::empty(), sep) =~= seq![Seq::<char>::empty()]);
    while i < n
        invariant
            n == s@.len(),
            start <= i <= n,
            split_chars(s@.subrange(0, i as int), sep) == strings_view(done@).push(
                s@.subrange(start as int, i as int),
            ),
        decreases n - i,
    {
        let c = s.get_char(i);
        let ghost prev = s@.subrange(0, i as int);
        assert(s@.subrange(0, i + 1).drop_last() =~= prev);
        if c == sep {
            let piece = String::from_str(s.substring_char(start, i));
            done.push(piece);
            start = i + 1;
            assert(strings_view(done@) =~= strings_view(done@.drop_last()).push(piece@));
            assert(s@.subrange(start as int, i + 1) =~= Seq::<char>::empty());
        } else {
            assert(s@.subrange(start as int, i + 1) =~= s@.subrange(start as int, i as int).push(c));
        }
        i = i + 1;
    }
    let last = String::from_str(s.substring_char(start, n));
    done.push(last);
    assert(s@.subrange(0, n as int) =~= s@);
    assert(strings_view(done@) =~= strings_view(done@.drop_last()).push(last@));
    done
}

/// Splits `s` at every `/`.
pub fn split_topic_exec(s: &str) -> (r: Vec<String>)
    ensures
        strings_view(r@) == split_topic(s@),
{
    split_chars_exec(s, '/')
}

/// Whether `s` is a valid topic string.
pub fn topic_is_valid(s: &str) -> (b: bool)
    ensures
        b == is_valid_topic(s@),
{
    let parts = split_topic_exec(s);
    let mut i: usize = 0;
    while i < parts.len()
        invariant
            strings_view(parts@) == split_topic(s@),
            i <= parts.len(),
            forall|j: int| 0 <= j < i ==> is_valid_fragment(#[trigger] split_topic(s@)[j]),
        decreases parts.len() - i,
    {
        assert(split_topic(s@)[i as int] == parts@[i as int]@);
        if !is_valid_fragment_exec(parts[i].as_str()) {
            return false;
        }
        i = i + 1;
    }
    true
}

/// Parses a topic string into its fragments. Errors if the string does not
/// follow the topic grammar.
pub fn parse_topic(topic_str: &str) -> (r: BusResult<Vec<String>>)
    ensures
        r is Ok <==> is_valid_topic(topic_str@),
        r matches Ok(v) ==> strings_view(v@) == split_topic(topic_str@),
        r matches Err(e) ==> e matches BusError::InvalidTopicString(m) && m@ == invalid_topic_message(
            topic_str@,
        ),
{
    if !topic_is_valid(topic_str) {
        let m = String::from_str("Invalid topic string: ").concat(topic_str);
        return Err(BusError::InvalidTopicString(m));
    }
    Ok(split_topic_exec(topic_str))
}

/// The first fragment of a topic: the protocol's prefix.
pub fn get_protocol(topic_str: &str) -> (r: BusResult<String>)
    ensures
        r is Ok <==> is_valid_topic(topic_str@),
        r matches Ok(p) ==> p@ == split_topic(topic_str@)[0],
        r matches Err(e) ==> e matches BusError::InvalidTopicString(m) && m@ == invalid_topic_message(
            topic_str@,
        ),
{
    let parts = parse_topic(topic_str)?;
    proof {
        lemma_split_nonempty(topic_str@, '/');
    }
    let first = parts[0].clone();
    Ok(first)
}

/// Qualifies `topic` with a protocol `prefix`.
pub fn prefix_topic(prefix: &str, topic: &str) -> (r: String)
    ensures
        r@ == prefixed(prefix@, topic@),
{
    if topic.is_empty() {
        String::from_str(prefix)
    } else {
        let r = String::from_str(prefix).concat("/").concat(topic);
        proof {
            reveal_strlit("/");
        }
        r
    }
}

/// Removes the first fragment (the protocol prefix) from a topic.
pub fn unprefix_topic(topic: &str) -> (r: String)
    requires
        topic@.contains('/'),
    ensures
        r@ == after_first_slash(topic@),
{
    let n = topic.unicode_len();
    let mut i: usize = 0;
    assert(topic@.subrange(0, n as int) =~= topic@);
    while i < n
        invariant
            n == topic@.len(),
            i <= n,
            forall|j: int| 0 <= j < i ==> topic@[j] != '/',
            after_first_slash(topic@) == after_first_slash(topic@.subrange(i as int, n as int)),
        decreases n - i,
    {
        if topic.get_char(i) == '/' {
            let ghost rest = topic@.subrange(i as int, n as int);
            assert(rest.drop_first() =~= topic@.subrange(i + 1, n as int));
            return String::from_str(topic.substring_char(i + 1, n));
        }
        assert(topic@.subrange(i as int, n as int).drop_first() =~= topic@.subrange(i + 1, n as int));
        i = i + 1;
    }
    assert(false);
    String::new()
}

/// Joins fragments with `/`.
pub fn join_topic_exec(parts: &[String]) -> (r: String)
    ensures
        r@ == join_topic(strings_view(parts@)),
{
    let mut r = String::new();
    let mut i: usize = 0;
    let ghost p = strings_view(parts@);
    assert(p.take(0) =~= Seq::<Seq<char>>::empty());
    while i < parts.len()
        invariant
            p == strings_view(parts@),
            i <= parts@.len(),
            r@ == join_topic(p.take(i as int)),
        decreases parts@.len() - i,
    {
        assert(p.take(i + 1).drop_last() =~= p.take(i as int));
        assert(p.take(i + 1).last() == parts@[i as int]@);
        if i == 0 {
            assert(p.take(1) =~= seq![parts@[0]@]);
            r.append(parts[i].as_str());
        } else {
            proof {
                reveal_strlit("/");
            }
            r.append("/");
            r.append(parts[i].as_str());
        }
        i = i + 1;
    }
    assert(p.take(parts@.len() as int) =~= p);
    r
}

/// Appending characters other than the separator extends the last piece.
pub proof fn lemma_split_append(s: Seq<char>, l: Seq<char>, sep: char)
    requires
        !l.contains(sep),
    ensures
        split_chars(s + l, sep) == split_chars(s, sep).update(
            split_chars(s, sep).len() - 1,
            split_chars(s, sep).last() + l,
        ),
    decreases l.len(),
{
    lemma_split_nonempty(s, sep);
    if l.len() == 0 {
        assert(s + l =~= s);
        assert(split_chars(s, sep).last() + l =~= split_chars(s, sep).last());
        assert(split_chars(s, sep).update(split_chars(s, sep).len() - 1, split_chars(s, sep).last())
            =~= split_chars(s, sep));
    } else {
        let l1 = l.drop_last();
        assert(!l1.contains(sep)) by {
            if l1.contains(sep) {
                let i = choose|i: int| 0 <= i < l1.len() && l1[i] == sep;
                assert(l[i] == sep);
            }
        }
        assert(l.last() != sep) by {
            assert(l[l.len() - 1] == l.last());
        }
        lemma_split_append(s, l1, sep);
        assert((s + l).drop_last() =~= s + l1);
        assert((s + l).last() == l.last());
        let base = split_chars(s, sep);
        assert((base.last() + l1).push(l.last()) =~= base.last() + l);
        assert(split_chars(s + l, sep) =~= base.update(base.len() - 1, base.last() + l));
    }
}

/// Splitting undoes joining: the fragments of a joined topic are the fragments
/// it was joined from, when there is at least one and none holds a `/`.
pub proof fn lemma_split_join(p: TopicPath)
    requires
        p.len() > 0,
        forall|i: int| 0 <= i < p.len() ==> !(#[trigger] p[i]).contains('/'),
    ensures
        split_topic(join_topic(p)) == p,
    decreases p.len(),
{
    if p.len() == 1 {
        lemma_split_append(Seq::empty(), p[0], '/');
        assert(Seq::<char>::empty() + p[0] =~= p[0]);
        assert(seq![Seq::<char>::empty()].update(0, Seq::<char>::empty() + p[0]) =~= p);
    } else {
        let init = p.drop_last();
        assert forall|i: int| 0 <= i < init.len() implies !(#[trigger] init[i]).contains('/') by {
            assert(init[i] == p[i]);
        }
        lemma_split_join(init);
        let j = join_topic(init);
        let js = j.push('/');
        assert(js.drop_last() =~= j);
        assert(split_chars(js, '/') == split_chars(j, '/').push(Seq::empty()));
        assert(!p.last().contains('/')) by {
            assert(p[p.len() - 1] == p.last());
        }
        lemma_split_append(js, p.last(), '/');
        assert(join_topic(p) =~= js + p.last());
        assert(Seq::<char>::empty() + p.last() =~= p.last());
        assert(init.push(Seq::empty()).update(init.len() as int, Seq::<char>::empty() + p.last()) =~= p);
    }
}

proof fn lemma_valid_fragment_no_slash(f: Seq<char>)
    requires
        is_valid_fragment(f),
    ensures
        !f.contains('/'),
        f.len() > 0,
{
    if f.contains('/') {
        let k = choose|k: int| 0 <= k < f.len() && f[k] == '/';
        if f == wildcard() || f == double_wildcard() {
            assert(f[k] == '*');
        } else {
            assert(is_word_char(f[k]));
        }
    }
}

/// Joining loses nothing: topics made of valid fragments are distinct exactly
/// when their joined strings are.
pub proof fn lemma_join_injective(p: TopicPath, q: TopicPath)
    requires
        forall|i: int| 0 <= i < p.len() ==> is_valid_fragment(#[trigger] p[i]),
        forall|i: int| 0 <= i < q.len() ==> is_valid_fragment(#[trigger] q[i]),
        join_topic(p) == join_topic(q),
    ensures
        p == q,
{
    assert forall|i: int| 0 <= i < p.len() implies !(#[trigger] p[i]).contains('/') by {
        lemma_valid_fragment_no_slash(p[i]);
    }
    assert forall|i: int| 0 <= i < q.len() implies !(#[trigger] q[i]).contains('/') by {
        lemma_valid_fragment_no_slash(q[i]);
    }
    if p.len() > 0 && q.len() > 0 {
        lemma_split_join(p);
        lemma_split_join(q);
    } else if p.len() > 0 {
        lemma_valid_fragment_no_slash(p[0]);
        lemma_valid_fragment_no_slash(p.last());
        assert(join_topic(p).len() > 0);
    } else if q.len() > 0 {
        lemma_valid_fragment_no_slash(q[0]);
        lemma_valid_fragment_no_slash(q.last());
        assert(join_topic(q).len() > 0);
    } else {
        assert(p =~= q);
    }
}

proof fn lemma_split_concat(a: Seq<char>, b: Seq<char>, sep: char)
    ensures
        split_chars(a + seq![sep] + b, sep) == split_chars(a, sep) + split_chars(b, sep),
    decreases b.len(),
{
    let x = a + seq![sep] + b;
    if b.len() == 0 {
        assert(x =~= a.push(sep));
        assert(x.drop_last() =~= a);
        assert(split_chars(a, sep).push(Seq::<char>::empty()) =~= split_chars(a, sep) + split_chars(b, sep));
    } else {
        let b1 = b.drop_last();
        lemma_split_concat(a, b1, sep);
        assert(x.drop_last() =~= a + seq![sep] + b1);
        assert(x.last() == b.last());
        let sa = split_chars(a, sep);
        let sb1 = split_chars(b1, sep);
        lemma_split_nonempty(b1, sep);
        if b.last() == sep {
            assert((sa + sb1).push(Seq::<char>::empty()) =~= sa + sb1.push(Seq::<char>::empty()));
        } else {
            let ab = sa + sb1;
            assert(ab.last() == sb1.last());
            assert(ab.update(ab.len() - 1, ab.last().push(b.last())) =~= sa + sb1.update(
                sb1.len() - 1,
                sb1.last().push(b.last()),
            ));
        }
    }
}

/// Prefixing adds one fragment in front: the fragments of `prefix/topic` are
/// the prefix, then the fragments of the topic (none when the topic is empty).
/// With a valid fragment as prefix and an empty or valid topic, the result is a
/// valid topic whose first fragment, its protocol, is the prefix.
pub proof fn lemma_prefixed_fragments(prefix: Seq<char>, topic: Seq<char>)
    requires
        is_valid_fragment(prefix),
        topic.len() == 0 || is_valid_topic(topic),
    ensures
        split_topic(prefixed(prefix, topic)) == seq![prefix] + (if topic.len() == 0 {
            Seq::<Seq<char>>::empty()
        } else {
            split_topic(topic)
        }),
        is_valid_topic(prefixed(prefix, topic)),
        split_topic(prefixed(prefix, topic))[0] == prefix,
{
    lemma_valid_fragment_no_slash(prefix);
    lemma_split_append(Seq::empty(), prefix, '/');
    assert(Seq::<char>::empty() + prefix =~= prefix);
    assert(split_topic(prefix) =~= seq![prefix]);
    let r = split_topic(prefixed(prefix, topic));
    if topic.len() == 0 {
        assert(seq![prefix] + Seq::<Seq<char>>::empty() =~= seq![prefix]);
    } else {
        lemma_split_concat(prefix, topic, '/');
    }
    let tail = if topic.len() == 0 {
        Seq::<Seq<char>>::empty()
    } else {
        split_topic(topic)
    };
    assert forall|i: int| 0 <= i < r.len() implies is_valid_fragment(#[trigger] r[i]) by {
        if i > 0 {
            assert(r[i] == tail[i - 1]);
        }
    }
}

proof fn lemma_join_split(s: Seq<char>)
    ensures
        join_topic(split_topic(s)) == s,
    decreases s.len(),
{
    if s.len() > 0 {
        let init = s.drop_last();
        lemma_join_split(init);
        lemma_split_nonempty(init, '/');
        let q = split_topic(init);
        if s.last() == '/' {
            let q2 = q.push(Seq::<char>::empty());
            assert(q2.drop_last() =~= q);
            assert(join_topic(q2) =~= s);
        } else {
            let q2 = q.update(q.len() - 1, q.last().push(s.last()));
            if q.len() == 1 {
                assert(q2[0] =~= s);
            } else {
                assert(q2.drop_last() =~= q.drop_last());
                assert(q2.last() == q.last().push(s.last()));
                assert(join_topic(q) == join_topic(q.drop_last()) + seq!['/'] + q.last());
                assert(join_topic(q2) == join_topic(q.drop_last()) + seq!['/'] + q.last().push(s.last()));
                assert(s =~= init.push(s.last()));
                assert(join_topic(q2) =~= s);
            }
        }
    }
}

/// Which fragments are valid, spelled out: `*`, `**`, or one or more
/// characters each a lower-case letter, a digit or `_`.
pub proof fn lemma_fragment_characters(f: Seq<char>)
    ensures
        is_valid_fragment(f) <==> (f == seq!['*'] || f == seq!['*', '*'] || (f.len() > 0 && forall|j: int|
            0 <= j < f.len() ==> (('a' <= #[trigger] f[j] && f[j] <= 'z') || ('0' <= f[j] && f[j] <= '9')
                || f[j] == '_'))),
{
    assert(wildcard() =~= seq!['*']);
    assert(double_wildcard() =~= seq!['*', '*']);
}

/// The topic grammar, spelled out: a string is a valid topic exactly when it is
/// one or more fragments joined with `/`, each fragment `*`, `**`, or one or
/// more characters from `a`-`z`, `0`-`9` and `_`.
pub proof fn lemma_topic_grammar(s: Seq<char>)
    ensures
        is_valid_topic(s) <==> exists|p: TopicPath|
            #![trigger join_topic(p)]
            p.len() >= 1 && s == join_topic(p) && forall|i: int|
                0 <= i < p.len() ==> (#[trigger] p[i] == seq!['*'] || p[i] == seq!['*', '*'] || (p[i].len()
                    > 0 && forall|j: int|
                    0 <= j < p[i].len() ==> (('a' <= #[trigger] p[i][j] && p[i][j] <= 'z') || ('0'
                        <= p[i][j] && p[i][j] <= '9') || p[i][j] == '_'))),
{
    if is_valid_topic(s) {
        let p = split_topic(s);
        lemma_split_nonempty(s, '/');
        lemma_join_split(s);
        assert forall|i: int| 0 <= i < p.len() implies (#[trigger] p[i] == seq!['*'] || p[i] == seq![
            '*',
            '*',
        ] || (p[i].len() > 0 && forall|j: int|
            0 <= j < p[i].len() ==> (('a' <= #[trigger] p[i][j] && p[i][j] <= 'z') || ('0' <= p[i][j]
                && p[i][j] <= '9') || p[i][j] == '_'))) by {
            lemma_fragment_characters(p[i]);
        }
        assert(join_topic(p) == s);
    }
    if exists|p: TopicPath|
        #![trigger join_topic(p)]
        p.len() >= 1 && s == join_topic(p) && forall|i: int|
            0 <= i < p.len() ==> (#[trigger] p[i] == seq!['*'] || p[i] == seq!['*', '*'] || (p[i].len()
                > 0 && forall|j: int|
                0 <= j < p[i].len() ==> (('a' <= #[trigger] p[i][j] && p[i][j] <= 'z') || ('0'
                    <= p[i][j] && p[i][j] <= '9') || p[i][j] == '_'))) {
        let p = choose|p: TopicPath|
            #![trigger join_topic(p)]
            p.len() >= 1 && s == join_topic(p) && forall|i: int|
                0 <= i < p.len() ==> (#[trigger] p[i] == seq!['*'] || p[i] == seq!['*', '*'] || (p[i].len()
                    > 0 && forall|j: int|
                    0 <= j < p[i].len() ==> (('a' <= #[trigger] p[i][j] && p[i][j] <= 'z') || ('0'
                        <= p[i][j] && p[i][j] <= '9') || p[i][j] == '_')));
        assert forall|i: int| 0 <= i < p.len() implies is_valid_fragment(#[trigger] p[i]) by {
            lemma_fragment_characters(p[i]);
        }
        assert forall|i: int| 0 <= i < p.len() implies !(#[trigger] p[i]).contains('/') by {
            lemma_valid_fragment_no_slash(p[i]);
        }
        lemma_split_join(p);
    }
}

/// Removing the prefix undoes adding it, for a prefix without `/` and a non-empty topic.
pub proof fn lemma_unprefix_prefixed(prefix: Seq<char>, topic: Seq<char>)
    requires
        !prefix.contains('/'),
        topic.len() > 0,
    ensures
        after_first_slash(prefixed(prefix, topic)) == topic,
    decreases prefix.len(),
{
    let s = prefixed(prefix, topic);
    if prefix.len() == 0 {
        assert(s[0] == '/');
        assert(s.drop_first() =~= topic);
    } else {
        assert(s[0] == prefix[0]);
        assert(prefix[0] != '/') by {
            assert(prefix.contains(prefix[0]));
        }
        let p1 = prefix.drop_first();
        assert(!p1.contains('/')) by {
            if p1.contains('/') {
                let i = choose|i: int| 0 <= i < p1.len() && p1[i] == '/';
                assert(prefix[i + 1] == '/');
            }
        }
        lemma_unprefix_prefixed(p1, topic);
        assert(s.drop_first() =~= prefixed(p1, topic));
    }
}

} // verus!
