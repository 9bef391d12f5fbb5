//! Character-level text operations used when reading arguments and naming entries.
//!
//! Every operation works on the `char` view of a string (`s@`), and each has a
//! spec function that says what it computes.
use vstd::prelude::*;

verus! {

broadcast use vstd::string::group_string_axioms;

/// Unicode `White_Space`: the characters for which `char::is_whitespace` holds.
pub open spec fn is_space(c: char) -> bool {
    let n = c as u32;
    ||| 0x09 <= n <= 0x0d
    ||| n == 0x20
    ||| n == 0x85
    ||| n == 0xa0
    ||| n == 0x1680
    ||| 0x2000 <= n <= 0x200a
    ||| n == 0x2028
    ||| n == 0x2029
    ||| n == 0x202f
    ||| n == 0x205f
    ||| n == 0x3000
}

/// `pat` occurs in `s` at position `i`.
pub open spec fn occurs_at(s: Seq<char>, pat: Seq<char>, i: int) -> bool {
    0 <= i && i + pat.len() <= s.len() && s.subrange(i, i + pat.len()) == pat
}

/// `pat` occurs somewhere in `s` (`str::contains`).
pub open spec fn contains_seq(s: Seq<char>, pat: Seq<char>) -> bool {
    exists|i: int| occurs_at(s, pat, i)
}

/// `s` with every occurrence of `from` replaced by `to`, matches taken from the
/// left without overlap; an empty `from` matches before every character and at
/// the end (`str::replace`).
pub open spec fn replaced(s: Seq<char>, from: Seq<char>, to: Seq<char>) -> Seq<char>
    decreases s.len(),
{
    if from.len() == 0 {
        if s.len() == 0 {
            to
        } else {
            to + seq![s[0]] + replaced(s.drop_first(), from, to)
        }
    } else if s.len() == 0 {
        seq![]
    } else if from.is_prefix_of(s) {
        to + replaced(s.skip(from.len() as int), from, to)
    } else {
        seq![s[0]] + replaced(s.drop_first(), from, to)
    }
}

/// The maximal runs of non-space characters of `s`, in order
/// (`str::split_whitespace`).
pub open spec fn words(s: Seq<char>) -> Seq<Seq<char>>
    decreases s.len(),
{
    if s.len() == 0 {
        seq![]
    } else {
        let w = words(s.drop_last());
        let c = s.last();
        if is_space(c) {
            w
        } else if s.len() >= 2 && !is_space(s[s.len() - 2]) {
            w.drop_last().push(w.last().push(c))
        } else {
            w.push(seq![c])
        }
    }
}

/// The characters of `s` before its first `c` (all of `s` if it has none).
pub open spec fn before_char(s: Seq<char>, c: char) -> Seq<char>
    decreases s.len(),
{
    if s.len() == 0 {
        seq![]
    } else if s[0] == c {
        seq![]
    } else {
        seq![s[0]] + before_char(s.drop_first(), c)
    }
}

/// The characters of `s` after its first `c` (empty if it has none).
pub open spec fn after_char(s: Seq<char>, c: char) -> Seq<char>
    decreases s.len(),
{
    if s.len() == 0 {
        seq![]
    } else if s[0] == c {
        s.drop_first()
    } else {
        after_char(s.drop_first(), c)
    }
}

/// Replacing a pattern that does not occur changes nothing.
pub proof fn lemma_replaced_absent(s: Seq<char>, from: Seq<char>, to: Seq<char>)
    requires
        from.len() > 0,
        !contains_seq(s, from),
    ensures
        replaced(s, from, to) == s,
    decreases s.len(),
{
    if s.len() > 0 {
        if from.is_prefix_of(s) {
            assert(s.subrange(0, from.len() as int) =~= from);
            assert(occurs_at(s, from, 0));
        }
        assert forall|i: int| !occurs_at(s.drop_first(), from, i) by {
            if occurs_at(s.drop_first(), from, i) {
                assert(s.subrange(i + 1, i + 1 + from.len()) =~= s.drop_first().subrange(
                    i,
                    i + from.len(),
                ));
                assert(occurs_at(s, from, i + 1));
            }
        }
        lemma_replaced_absent(s.drop_first(), from, to);
        assert(seq![s[0]] + s.drop_first() =~= s);
    } else {
        assert(replaced(s, from, to) =~= s);
    }
}

/// A text that starts with the pattern has it replaced there first.
pub proof fn lemma_replaced_prefix(from: Seq<char>, rest: Seq<char>, to: Seq<char>)
    requires
        from.len() > 0,
    ensures
        replaced(from + rest, from, to) == to + replaced(rest, from, to),
{
    let s = from + rest;
    assert(from.is_prefix_of(s)) by {
        assert(s.subrange(0, from.len() as int) =~= from);
    }
    assert(s.skip(from.len() as int) =~= rest);
}

/// Replacing the empty pattern by nothing changes nothing.
pub proof fn lemma_replaced_empty(s: Seq<char>)
    ensures
        replaced(s, seq![], seq![]) == s,
    decreases s.len(),
{
    if s.len() > 0 {
        lemma_replaced_empty(s.drop_first());
        assert(Seq::<char>::empty() + seq![s[0]] + s.drop_first() =~= s);
    }
}

/// A character occurs in a text iff it is one of its characters.
pub proof fn lemma_contains_char(s: Seq<char>, c: char)
    ensures
        contains_seq(s, seq![c]) <==> exists|k: int| 0 <= k < s.len() && s[k] == c,
{
    if contains_seq(s, seq![c]) {
        let i = choose|i: int| occurs_at(s, seq![c], i);
        assert(s.subrange(i, i + 1)[0] == s[i]);
    }
    if exists|k: int| 0 <= k < s.len() && s[k] == c {
        let k = choose|k: int| 0 <= k < s.len() && s[k] == c;
        assert(s.subrange(k, k + 1) =~= seq![c]);
        assert(occurs_at(s, seq![c], k));
    }
}

/// Cutting `head`, `c` and `tail` at the first `c`, where `head` holds no `c`,
/// gives `head` before it and `tail` after it.
pub proof fn lemma_cut_at_char(head: Seq<char>, c: char, tail: Seq<char>)
    requires
        forall|k: int| 0 <= k < head.len() ==> head[k] != c,
    ensures
        before_char(head + seq![c] + tail, c) == head,
        after_char(head + seq![c] + tail, c) == tail,
    decreases head.len(),
{
    let s = head + seq![c] + tail;
    if head.len() == 0 {
        assert(s[0] == c);
        assert(s.drop_first() =~= tail);
    } else {
        assert(s[0] == head[0]);
        assert(s.drop_first() =~= head.drop_first() + seq![c] + tail);
        lemma_cut_at_char(head.drop_first(), c, tail);
        assert(seq![head[0]] + head.drop_first() =~= head);
    }
}

/// A text without `c` lies wholly before its (absent) first `c`.
pub proof fn lemma_before_absent_char(s: Seq<char>, c: char)
    requires
        forall|k: int| 0 <= k < s.len() ==> s[k] != c,
    ensures
        before_char(s, c) == s,
    decreases s.len(),
{
    if s.len() > 0 {
        lemma_before_absent_char(s.drop_first(), c);
        assert(seq![s[0]] + s.drop_first() =~= s);
    }
}

/// `char::is_whitespace`.
pub fn is_space_char(c: char) -> (b: bool)
    ensures
        b == is_space(c),
{
    let n = c as u32;
    (0x09 <= n && n <= 0x0d) || n == 0x20 || n == 0x85 || n == 0xa0 || n == 0x1680 || (0x2000
        <= n && n <= 0x200a) || n == 0x2028 || n == 0x2029 || n == 0x202f || n == 0x205f || n
        == 0x3000
}

/// The characters of `s`, in order.
pub fn chars_of(s: &str) -> (res: Vec<char>)
    ensures
        res@ == s@,
{
    let mut res: Vec<char> = Vec::new();
    for c in it: s.chars()
        invariant
            res@ == it.seq().take(it.index() as int),
            it.seq() == s@,
    {
        res.push(c);
    }
    res
}

/// Appends one character to a string by calling `String::push`. Trusted: the
/// contract claims that the string afterwards holds its old characters and then `c`.
#[verifier::external_body]
fn push_char(s: &mut String, c: char)
    ensures
        final(s)@ == old(s)@.push(c),
{
    s.push(c);
}

/// Appends characters to a string.
pub fn push_chars(s: &mut String, cs: &Vec<char>)
    ensures
        final(s)@ == old(s)@ + cs@,
{
    let ghost start = s@;
    for k in 0..cs.len()
        invariant
            s@ == start + cs@.take(k as int),
    {
        push_char(s, cs[k]);
        assert(cs@.take(k + 1) == cs@.take(k as int).push(cs@[k as int]));
    }
    assert(cs@.take(cs.len() as int) == cs@);
}

/// A string made of the given characters.
pub fn string_of(cs: &Vec<char>) -> (res: String)
    ensures
        res@ == cs@,
{
    let mut s = String::new();
    push_chars(&mut s, cs);
    s
}

/// Whether `pat` occurs in `s` at position `i`.
pub fn occurs_at_index(s: &Vec<char>, pat: &Vec<char>, i: usize) -> (b: bool)
    ensures
        b == occurs_at(s@, pat@, i as int),
{
    if i > s.len() || pat.len() > s.len() - i {
        return false;
    }
    let mut k: usize = 0;
    while k < pat.len()
        invariant
            i + pat.len() <= s.len(),
            k <= pat.len(),
            forall|j: int| 0 <= j < k ==> s@[i + j] == pat@[j],
        decreases pat.len() - k,
    {
        if s[i + k] != pat[k] {
            assert(s@.subrange(i as int, i + pat.len())[k as int] != pat@[k as int]);
            return false;
        }
        k = k + 1;
    }
    assert(s@.subrange(i as int, i + pat.len()) =~= pat@);
    true
}

/// Whether `pat` occurs in `s` (`str::contains`).
pub fn contains_chars(s: &Vec<char>, pat: &Vec<char>) -> (b: bool)
    ensures
        b == contains_seq(s@, pat@),
{
    if pat.len() == 0 {
        assert(s@.subrange(0, 0) =~= pat@);
        assert(occurs_at(s@, pat@, 0));
        return true;
    }
    let mut i: usize = 0;
    while i < s.len()
        invariant
            i <= s.len(),
            pat@.len() > 0,
            forall|j: int| 0 <= j < i ==> !occurs_at(s@, pat@, j),
        decreases s.len() - i,
    {
        if occurs_at_index(s, pat, i) {
            return true;
        }
        i = i + 1;
    }
    assert forall|j: int| !occurs_at(s@, pat@, j) by {
        if 0 <= j && j < i {
        }
    }
    false
}

proof fn lemma_skip_step(s: Seq<char>, i: int, n: int)
    requires
        0 <= i,
        0 <= n,
        i + n <= s.len(),
    ensures
        s.skip(i).skip(n) == s.skip(i + n),
{
    assert(s.skip(i).skip(n) =~= s.skip(i + n));
}

/// `s` with every occurrence of `from` replaced by `to` (`str::replace`).
pub fn replace_chars(s: &Vec<char>, from: &Vec<char>, to: &Vec<char>) -> (res: Vec<char>)
    ensures
        res@ == replaced(s@, from@, to@),
{
    let mut out: Vec<char> = Vec::new();
    let mut i: usize = 0;
    assert(s@.skip(0) == s@);
    while i < s.len()
        invariant
            i <= s.len(),
            replaced(s@, from@, to@) == out@ + replaced(s@.skip(i as int), from@, to@),
        decreases s.len() - i,
    {
        let ghost rest = s@.skip(i as int);
        assert(rest.len() > 0);
        assert(rest[0] == s@[i as int]);
        assert(rest.drop_first() == s@.skip(i + 1)) by {
            lemma_skip_step(s@, i as int, 1);
        }
        if from.len() == 0 {
            let ghost before = out@;
            let mut k: usize = 0;
            while k < to.len()
                invariant
                    k <= to.len(),
                    out@ == before + to@.take(k as int),
                decreases to.len() - k,
            {
                out.push(to[k]);
                assert(to@.take(k + 1) == to@.take(k as int).push(to@[k as int]));
                k = k + 1;
            }
            assert(to@.take(to.len() as int) == to@);
            out.push(s[i]);
            assert(out@ == before + to@ + seq![s@[i as int]]);
            i = i + 1;
        } else if occurs_at_index(s, from, i) {
            assert(from@.is_prefix_of(rest)) by {
                assert(rest.subrange(0, from@.len() as int) =~= s@.subrange(
                    i as int,
                    i + from@.len(),
                ));
            }
            assert(rest.skip(from@.len() as int) == s@.skip(i + from@.len())) by {
                lemma_skip_step(s@, i as int, from@.len() as int);
            }
            let ghost before = out@;
            let mut k: usize = 0;
            while k < to.len()
                invariant
                    k <= to.len(),
                    out@ == before + to@.take(k as int),
                decreases to.len() - k,
            {
                out.push(to[k]);
                assert(to@.take(k + 1) == to@.take(k as int).push(to@[k as int]));
                k = k + 1;
            }
            assert(to@.take(to.len() as int) == to@);
            i = i + from.len();
        } else {
            assert(!from@.is_prefix_of(rest)) by {
                if from@.is_prefix_of(rest) {
                    assert(rest.subrange(0, from@.len() as int) =~= s@.subrange(
                        i as int,
                        i + from@.len(),
                    ));
                }
            }
            out.push(s[i]);
            i = i + 1;
        }
    }
    assert(s@.skip(i as int).len() == 0);
    if from.len() == 0 {
        let ghost before = out@;
        let mut k: usize = 0;
        while k < to.len()
            invariant
                k <= to.len(),
                out@ == before + to@.take(k as int),
            decreases to.len() - k,
        {
            out.push(to[k]);
            assert(to@.take(k + 1) == to@.take(k as int).push(to@[k as int]));
            k = k + 1;
        }
        assert(to@.take(to.len() as int) == to@);
    }
    assert(out@ =~= out@ + Seq::<char>::empty());
    out
}

/// The character views of a sequence of character vectors.
pub open spec fn views(v: Seq<Vec<char>>) -> Seq<Seq<char>> {
    v.map_values(|w: Vec<char>| w@)
}

proof fn lemma_views_push(v: Seq<Vec<char>>, w: Vec<char>)
    ensures
        views(v.push(w)) == views(v).push(w@),
{
    assert(views(v.push(w)) =~= views(v).push(w@));
}

/// The maximal runs of non-space characters of `s` (`str::split_whitespace`).
pub fn split_words(s: &Vec<char>) -> (res: Vec<Vec<char>>)
    ensures
        views(res@) == words(s@),
{
    let mut done: Vec<Vec<char>> = Vec::new();
    let mut cur: Vec<char> = Vec::new();
    let mut in_word = false;
    let mut i: usize = 0;
    assert(views(done@) =~= Seq::<Seq<char>>::empty());
    assert(s@.take(0) =~= Seq::<char>::empty());
    while i < s.len()
        invariant
            i <= s.len(),
            in_word == (i > 0 && !is_space(s@[i - 1])),
            in_word ==> words(s@.take(i as int)) == views(done@).push(cur@),
            !in_word ==> words(s@.take(i as int)) == views(done@) && cur@.len() == 0,
        decreases s.len() - i,
    {
        let c = s[i];
        let ghost pre = s@.take(i + 1);
        assert(pre.drop_last() == s@.take(i as int));
        assert(pre.last() == c);
        if is_space_char(c) {
            if in_word {
                proof {
                    lemma_views_push(done@, cur);
                }
                done.push(cur);
                cur = Vec::new();
                in_word = false;
            }
        } else if in_word {
            proof {
                let w = views(done@).push(cur@);
                assert(w.drop_last() =~= views(done@));
                assert(w.last() == cur@);
                assert(pre[pre.len() - 2] == s@[i - 1]);
            }
            cur.push(c);
        } else {
            assert(cur@.push(c) =~= seq![c]);
            cur.push(c);
            in_word = true;
        }
        i = i + 1;
    }
    assert(s@.take(s.len() as int) == s@);
    if in_word {
        proof {
            lemma_views_push(done@, cur);
        }
        done.push(cur);
    }
    done
}

/// Whether `s` begins with `prefix` (`str::starts_with`).
pub fn starts_with_chars(s: &Vec<char>, prefix: &Vec<char>) -> (b: bool)
    ensures
        b == prefix@.is_prefix_of(s@),
{
    let b = occurs_at_index(s, prefix, 0);
    proof {
        if b {
            assert(s@.subrange(0, prefix@.len() as int) == prefix@);
        }
        if prefix@.is_prefix_of(s@) {
            assert(s@.subrange(0, prefix@.len() as int) =~= prefix@);
        }
    }
    b
}

/// The characters before the first `c` and after it (`split_once`-like: the
/// second part is empty when `c` does not occur).
pub fn split_at_char(s: &Vec<char>, c: char) -> (res: (Vec<char>, Vec<char>))
    ensures
        res.0@ == before_char(s@, c),
        res.1@ == after_char(s@, c),
{
    let mut head: Vec<char> = Vec::new();
    let mut i: usize = 0;
    assert(s@.skip(0) == s@);
    while i < s.len() && s[i] != c
        invariant
            i <= s.len(),
            before_char(s@, c) == head@ + before_char(s@.skip(i as int), c),
            after_char(s@, c) == after_char(s@.skip(i as int), c),
        decreases s.len() - i,
    {
        let ghost rest = s@.skip(i as int);
        assert(rest[0] == s@[i as int]);
        assert(rest.drop_first() =~= s@.skip(i + 1));
        head.push(s[i]);
        assert(head@ + before_char(s@.skip(i + 1), c) =~= (head@.drop_last() + seq![s@[i as int]])
            + before_char(s@.skip(i + 1), c));
        i = i + 1;
    }
    let mut tail: Vec<char> = Vec::new();
    if i < s.len() {
        let ghost rest = s@.skip(i as int);
        assert(rest[0] == c);
        let mut k: usize = i + 1;
        while k < s.len()
            invariant
                i < s.len(),
                i + 1 <= k <= s.len(),
                tail@ == s@.subrange(i + 1, k as int),
            decreases s.len() - k,
        {
            tail.push(s[k]);
            assert(s@.subrange(i + 1, k + 1) =~= s@.subrange(i + 1, k as int).push(s@[k as int]));
            k = k + 1;
        }
        assert(rest.drop_first() =~= s@.subrange(i + 1, s.len() as int));
    } else {
        assert(s@.skip(i as int).len() == 0);
    }
    assert(head@ =~= head@ + Seq::<char>::empty());
    (head, tail)
}

} // verus!
