//! Paths as sequences of characters: splitting on `/`, prefixes, and decimal indices.
use vstd::prelude::*;

verus! {

/// The `/`-delimited pieces of a path, empty pieces included: the empty path
/// has one empty piece, and every `/` starts a new one.
pub open spec fn segments(s: Seq<char>) -> Seq<Seq<char>>
    decreases s.len(),
{
    if s.len() == 0 {
        seq![Seq::empty()]
    } else {
        let init = segments(s.drop_last());
        if s.last() == '/' {
            init.push(Seq::empty())
        } else {
            init.drop_last().push(init.last().push(s.last()))
        }
    }
}

/// The character sequences held by a list of strings.
pub open spec fn texts(v: Seq<String>) -> Seq<Seq<char>> {
    Seq::new(v.len(), |i: int| v[i]@)
}

/// The character sequences held by a list of string pairs.
pub open spec fn text_pairs(v: Seq<(String, String)>) -> Seq<(Seq<char>, Seq<char>)> {
    Seq::new(v.len(), |i: int| (v[i].0@, v[i].1@))
}

/// `s` without its last character when that character is `/`.
pub open spec fn trim_slash(s: Seq<char>) -> Seq<char> {
    if s.len() > 0 && s.last() == '/' {
        s.drop_last()
    } else {
        s
    }
}

/// What is left of `s` after the prefix `p`, if `s` starts with `p`.
pub open spec fn after_prefix(p: Seq<char>, s: Seq<char>) -> Option<Seq<char>> {
    if p.is_prefix_of(s) {
        Some(s.skip(p.len() as int))
    } else {
        None
    }
}

pub open spec fn is_digit(c: char) -> bool {
    '0' <= c <= '9'
}

pub open spec fn digit_value(c: char) -> nat {
    (c as u32 - '0' as u32) as nat
}

/// The number that a non-empty run of decimal digits writes; `None` for any other text.
pub open spec fn decimal(s: Seq<char>) -> Option<nat>
    decreases s.len(),
{
    if s.len() == 0 || !is_digit(s.last()) {
        None
    } else if s.len() == 1 {
        Some(digit_value(s.last()))
    } else {
        match decimal(s.drop_last()) {
            Some(v) => Some(v * 10 + digit_value(s.last())),
            None => None,
        }
    }
}

/// The index that a segment writes: its decimal value, when that fits a `usize`.
pub open spec fn index_of(s: Seq<char>) -> Option<usize> {
    match decimal(s) {
        Some(v) => if v <= usize::MAX { Some(v as usize) } else { None },
        None => None,
    }
}

/// A path always has at least one segment.
pub proof fn lemma_segments_nonempty(s: Seq<char>)
    ensures
        segments(s).len() >= 1,
    decreases s.len(),
{
    if s.len() > 0 {
        lemma_segments_nonempty(s.drop_last());
    }
}

/// A text without `/` is its own single segment.
pub proof fn lemma_segments_plain(s: Seq<char>)
    requires
        !s.contains('/'),
    ensures
        segments(s) == seq![s],
    decreases s.len(),
{
    if s.len() == 0 {
        assert(s =~= Seq::<char>::empty());
    } else {
        let init = s.drop_last();
        assert forall|i: int| 0 <= i < init.len() implies init[i] != '/' by {
            assert(init[i] == s[i]);
            assert(s.contains(s[i]));
        }
        assert(!init.contains('/'));
        lemma_segments_plain(init);
        assert(s.contains(s.last()));
        assert(init.push(s.last()) =~= s);
        assert(seq![init].drop_last().push(init.push(s.last())) =~= seq![s]);
    }
}

/// A `/` parts a path: the segments of `a`, `/`, `b` are those of `a`
/// followed by those of `b`.
pub proof fn lemma_segments_join(a: Seq<char>, b: Seq<char>)
    ensures
        segments(a + seq!['/'] + b) == segments(a) + segments(b),
    decreases b.len(),
{
    let whole = a + seq!['/'] + b;
    if b.len() == 0 {
        assert(whole.drop_last() =~= a);
        assert(segments(b) =~= seq![Seq::<char>::empty()]);
        assert(segments(a).push(Seq::empty()) =~= segments(a) + segments(b));
    } else {
        let init = b.drop_last();
        lemma_segments_join(a, init);
        lemma_segments_nonempty(init);
        assert(whole.drop_last() =~= a + seq!['/'] + init);
        assert(whole.last() == b.last());
        let before = segments(a) + segments(init);
        if b.last() == '/' {
            assert(before.push(Seq::empty()) =~= segments(a) + segments(init).push(Seq::empty()));
        } else {
            assert(before.last() == segments(init).last());
            assert(before.drop_last() =~= segments(a) + segments(init).drop_last());
            assert(before.drop_last().push(before.last().push(b.last())) =~= segments(a)
                + segments(init).drop_last().push(segments(init).last().push(b.last())));
        }
    }
}

/// No segment holds a `/`.
pub proof fn lemma_segments_hold_no_slash(s: Seq<char>, i: int)
    requires
        0 <= i < segments(s).len(),
    ensures
        !segments(s)[i].contains('/'),
    decreases s.len(),
{
    if s.len() == 0 {
    } else {
        let init = segments(s.drop_last());
        lemma_segments_nonempty(s.drop_last());
        if s.last() == '/' {
            if i < init.len() {
                lemma_segments_hold_no_slash(s.drop_last(), i);
            }
        } else {
            if i < init.len() - 1 {
                lemma_segments_hold_no_slash(s.drop_last(), i);
            } else {
                lemma_segments_hold_no_slash(s.drop_last(), init.len() - 1);
                let grown = init.last().push(s.last());
                assert forall|k: int| 0 <= k < grown.len() implies grown[k] != '/' by {
                    if k < init.last().len() {
                        assert(init.last().contains(init.last()[k]));
                    }
                }
            }
        }
    }
}

/// The characters of a string, in order.
pub fn characters(s: &str) -> (r: Vec<char>)
    ensures
        r@ == s@,
{
    let mut out: Vec<char> = Vec::new();
    for c in it: s.chars()
        invariant
            out@ == it.seq().take(it.index()),
            it.seq() == s@,
    {
        out.push(c);
        assert(out@ =~= it.seq().take(it.index() + 1));
    }
    assert(out@ =~= s@);
    out
}

/// The characters of `s` from position `from` up to `to`, as a new string.
pub fn slice(s: &str, from: usize, to: usize) -> (r: String)
    requires
        from <= to <= s@.len(),
    ensures
        r@ == s@.subrange(from as int, to as int),
{
    s.substring_char(from, to).to_owned()
}

/// Splits a path on `/`.
pub fn split_segments(s: &str) -> (parts: Vec<String>)
    ensures
        texts(parts@) == segments(s@),
{
    let chars = characters(s);
    let mut parts: Vec<String> = Vec::new();
    let mut start: usize = 0;
    let mut i: usize = 0;
    assert(s@.take(0) =~= Seq::<char>::empty());
    assert(texts(parts@).push(s@.subrange(0, 0)) =~= seq![Seq::<char>::empty()]);
    while i < chars.len()
        invariant
            chars@ == s@,
            start <= i <= chars@.len(),
            segments(s@.take(i as int)) == texts(parts@).push(s@.subrange(start as int, i as int)),
        decreases chars@.len() - i,
    {
        let ghost before = texts(parts@);
        let ghost head = s@.take(i + 1);
        assert(head.drop_last() =~= s@.take(i as int));
        assert(head.last() == s@[i as int]);
        if chars[i] == '/' {
            parts.push(slice(s, start, i));
            assert(texts(parts@) =~= before.push(s@.subrange(start as int, i as int)));
            start = i + 1;
            assert(s@.subrange(start as int, start as int) =~= Seq::<char>::empty());
        } else {
            let ghost grown = before.push(s@.subrange(start as int, i as int));
            assert(grown.drop_last() =~= before);
            assert(grown.last().push(s@[i as int]) =~= s@.subrange(start as int, i + 1));
        }
        i += 1;
    }
    let ghost before = texts(parts@);
    assert(s@.take(i as int) =~= s@);
    parts.push(slice(s, start, i));
    assert(texts(parts@) =~= before.push(s@.subrange(start as int, i as int)));
    parts
}

/// Whether `s` begins with `p`.
pub fn starts_with(s: &str, p: &str) -> (r: bool)
    ensures
        r == p@.is_prefix_of(s@),
{
    let sc = characters(s);
    let pc = characters(p);
    if pc.len() > sc.len() {
        return false;
    }
    let mut i: usize = 0;
    while i < pc.len()
        invariant
            sc@ == s@,
            pc@ == p@,
            pc@.len() <= sc@.len(),
            i <= pc@.len(),
            forall|j: int| 0 <= j < i ==> sc@[j] == pc@[j],
        decreases pc@.len() - i,
    {
        if sc[i] != pc[i] {
            assert(s@.subrange(0, p@.len() as int)[i as int] != p@[i as int]);
            return false;
        }
        i += 1;
    }
    assert(s@.subrange(0, p@.len() as int) =~= p@);
    true
}

/// Removes the prefix `p` from `s`, when `s` begins with it.
pub fn strip_prefix(s: &str, p: &str) -> (r: Option<String>)
    ensures
        r is Some == after_prefix(p@, s@) is Some,
        r matches Some(rest) ==> Some(rest@) == after_prefix(p@, s@),
{
    if starts_with(s, p) {
        let n = s.unicode_len();
        let k = p.unicode_len();
        let rest = slice(s, k, n);
        assert(rest@ =~= s@.skip(k as int));
        Some(rest)
    } else {
        None
    }
}

/// Drops one trailing `/`, if there is one.
pub fn strip_trailing_slash(s: &str) -> (r: String)
    ensures
        r@ == trim_slash(s@),
{
    let n = s.unicode_len();
    if n > 0 && s.get_char(n - 1) == '/' {
        let r = slice(s, 0, n - 1);
        assert(r@ =~= s@.drop_last());
        r
    } else {
        let r = slice(s, 0, n);
        assert(r@ =~= s@);
        r
    }
}

/// A decimal prefix never writes more than the whole text does.
pub proof fn lemma_decimal_prefix(s: Seq<char>, n: int)
    requires
        1 <= n <= s.len(),
        decimal(s) is Some,
    ensures
        decimal(s.take(n)) is Some,
        decimal(s.take(n))->0 <= decimal(s)->0,
    decreases s.len(),
{
    if n == s.len() {
        assert(s.take(n) =~= s);
    } else {
        assert(s.drop_last().take(n) =~= s.take(n));
        lemma_decimal_prefix(s.drop_last(), n);
    }
}

/// Reads a segment as an array index: decimal digits only, within `usize`.
pub fn parse_index(s: &str) -> (r: Option<usize>)
    ensures
        r == index_of(s@),
{
    let chars = characters(s);
    if chars.len() == 0 {
        return None;
    }
    let mut value: usize = 0;
    let mut i: usize = 0;
    while i < chars.len()
        invariant
            chars@ == s@,
            i <= chars@.len(),
            i > 0 ==> decimal(s@.take(i as int)) == Some(value as nat),
            i == 0 ==> value == 0,
        decreases chars@.len() - i,
    {
        let c = chars[i];
        let ghost head = s@.take(i + 1);
        assert(head.drop_last() =~= s@.take(i as int));
        assert(head.last() == c);
        if !(c >= '0' && c <= '9') {
            proof {
                if decimal(s@) is Some {
                    lemma_decimal_prefix(s@, i + 1);
                }
            }
            return None;
        }
        let d: usize = (c as u32 - '0' as u32) as usize;
        if value > (usize::MAX - d) / 10 {
            proof {
                assert(value * 10 + d > usize::MAX) by (nonlinear_arith)
                    requires
                        value > (usize::MAX - d) / 10,
                        d <= 9,
                ;
                if decimal(s@) is Some {
                    lemma_decimal_prefix(s@, i + 1);
                }
            }
            return None;
        }
        assert(value * 10 + d <= usize::MAX) by (nonlinear_arith)
            requires
                value <= (usize::MAX - d) / 10,
                d <= 9,
        ;
        value = value * 10 + d;
        i += 1;
    }
    assert(s@.take(i as int) =~= s@);
    Some(value)
}

/// Whether two strings hold the same characters.
pub fn same_text(a: &str, b: &str) -> (r: bool)
    ensures
        r == (a@ == b@),
{
    let ac = characters(a);
    let bc = characters(b);
    if ac.len() != bc.len() {
        return false;
    }
    let mut i: usize = 0;
    while i < ac.len()
        invariant
            ac@ == a@,
            bc@ == b@,
            ac@.len() == bc@.len(),
            i <= ac@.len(),
            forall|j: int| 0 <= j < i ==> ac@[j] == bc@[j],
        decreases ac@.len() - i,
    {
        if ac[i] != bc[i] {
            return false;
        }
        i += 1;
    }
    assert(a@ =~= b@);
    true
}

} // verus!
