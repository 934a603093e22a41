//! Route templates against request paths, and the generator behind `{{rand}}`.
use crate::assoc::{find_key, keys_of, names, upsert};
use crate::text::{characters, same_text, segments, slice, split_segments, text_pairs, texts};
use vstd::prelude::*;

verus! {

/// A template segment wrapped in `{` and `}` stands for any path segment.
pub open spec fn is_wildcard(segment: Seq<char>) -> bool {
    segment.len() >= 2 && segment.first() == '{' && segment.last() == '}'
}

/// The parameter that a wildcard segment names: what stands between its braces.
pub open spec fn wildcard_name(segment: Seq<char>) -> Seq<char> {
    segment.subrange(1, segment.len() - 1)
}

/// Segment by segment: as many pieces as patterns, and each piece equal to its
/// pattern unless the pattern is a wildcard.
pub open spec fn segments_match(patterns: Seq<Seq<char>>, pieces: Seq<Seq<char>>) -> bool {
    patterns.len() == pieces.len() && forall|i: int|
        0 <= i < patterns.len() ==> patterns[i] == pieces[i] || is_wildcard(#[trigger] patterns[i])
}

/// Whether the request path `path` matches the route template `template`.
pub open spec fn path_matches(template: Seq<char>, path: Seq<char>) -> bool {
    segments_match(segments(template), segments(path))
}

/// One aligned pair: equal segments bind nothing, a wildcard binds its name to
/// the piece (replacing an earlier binding of that name), anything else fails.
pub open spec fn bind(
    found: Seq<(Seq<char>, Seq<char>)>,
    piece: Seq<char>,
    pattern: Seq<char>,
) -> Option<Seq<(Seq<char>, Seq<char>)>> {
    if piece == pattern {
        Some(found)
    } else if is_wildcard(pattern) {
        Some(upsert(found, wildcard_name(pattern), piece))
    } else {
        None
    }
}

/// The bindings of the first `n` aligned pairs, in the order in which their
/// names first occur; `None` once a pair fails.
pub open spec fn bindings(pieces: Seq<Seq<char>>, patterns: Seq<Seq<char>>, n: nat) -> Option<
    Seq<(Seq<char>, Seq<char>)>,
>
    decreases n,
{
    if n == 0 {
        Some(Seq::empty())
    } else {
        match bindings(pieces, patterns, (n - 1) as nat) {
            Some(found) => bind(found, pieces[n - 1], patterns[n - 1]),
            None => None,
        }
    }
}

/// The parameters that `template` binds in `path`, walking the segments that
/// both have.
pub open spec fn extract(path: Seq<char>, template: Seq<char>) -> Option<
    Seq<(Seq<char>, Seq<char>)>,
> {
    let pieces = segments(path);
    let patterns = segments(template);
    bindings(
        pieces,
        patterns,
        if pieces.len() <= patterns.len() {
            pieces.len()
        } else {
            patterns.len()
        },
    )
}

/// Once a pair has failed, walking further pairs does not mend it.
pub proof fn lemma_bindings_stay_failed(
    pieces: Seq<Seq<char>>,
    patterns: Seq<Seq<char>>,
    n: nat,
    m: nat,
)
    requires
        n <= m,
        bindings(pieces, patterns, n) is None,
    ensures
        bindings(pieces, patterns, m) is None,
    decreases m,
{
    if n < m {
        lemma_bindings_stay_failed(pieces, patterns, n, (m - 1) as nat);
    }
}

/// Whether `segment` is a wildcard.
pub fn wildcard(segment: &str) -> (r: bool)
    ensures
        r == is_wildcard(segment@),
{
    let chars = characters(segment);
    let n = chars.len();
    n >= 2 && chars[0] == '{' && chars[n - 1] == '}'
}

/// Tells whether the request path `path2` matches the route template `path`.
pub fn compare_path(path: String, path2: String) -> (r: bool)
    ensures
        r == path_matches(path@, path2@),
{
    let patterns = split_segments(path.as_str());
    let pieces = split_segments(path2.as_str());
    if patterns.len() != pieces.len() {
        return false;
    }
    let mut i: usize = 0;
    while i < patterns.len()
        invariant
            texts(patterns@) == segments(path@),
            texts(pieces@) == segments(path2@),
            patterns@.len() == pieces@.len(),
            i <= patterns@.len(),
            forall|j: int|
                0 <= j < i ==> segments(path@)[j] == segments(path2@)[j] || is_wildcard(
                    #[trigger] segments(path@)[j],
                ),
        decreases patterns@.len() - i,
    {
        assert(texts(patterns@)[i as int] == patterns@[i as int]@);
        assert(texts(pieces@)[i as int] == pieces@[i as int]@);
        if !same_text(patterns[i].as_str(), pieces[i].as_str()) && !wildcard(patterns[i].as_str()) {
            return false;
        }
        i += 1;
    }
    true
}

/// Extracts the parameters that the template `path2` binds in the request
/// path `path`. The result lists each name once, in the order of first
/// occurrence, with the value that its last wildcard met.
pub fn get_path_args(path: String, path2: String) -> (r: Option<Vec<(String, String)>>)
    ensures
        r is Some == extract(path@, path2@) is Some,
        r matches Some(found) ==> Some(text_pairs(found@)) == extract(path@, path2@),
{
    let pieces = split_segments(path.as_str());
    let patterns = split_segments(path2.as_str());
    let count = if pieces.len() <= patterns.len() {
        pieces.len()
    } else {
        patterns.len()
    };
    let mut found: Vec<(String, String)> = Vec::new();
    let mut i: usize = 0;
    assert(text_pairs(found@) =~= Seq::empty());
    while i < count
        invariant
            texts(pieces@) == segments(path@),
            texts(patterns@) == segments(path2@),
            count <= pieces@.len(),
            count <= patterns@.len(),
            count == pieces@.len() || count == patterns@.len(),
            i <= count,
            bindings(segments(path@), segments(path2@), i as nat) == Some(text_pairs(found@)),
        decreases count - i,
    {
        assert(texts(pieces@)[i as int] == pieces@[i as int]@);
        assert(texts(patterns@)[i as int] == patterns@[i as int]@);
        let piece = pieces[i].as_str();
        let pattern = patterns[i].as_str();
        if same_text(piece, pattern) {
        } else if wildcard(pattern) {
            let n = pattern.unicode_len();
            let name = slice(pattern, 1, n - 1);
            let value = piece.to_owned();
            let ghost before = text_pairs(found@);
            assert(keys_of(before) =~= names(found@));
            match find_key(&found, name.as_str()) {
                Some(k) => {
                    found[k] = (name, value);
                    assert(text_pairs(found@) =~= before.update(k as int, (name@, value@)));
                },
                None => {
                    found.push((name, value));
                    assert(text_pairs(found@) =~= before.push((name@, value@)));
                },
            }
        } else {
            proof {
                assert(segments(path@)[i as int] == piece@);
                assert(segments(path2@)[i as int] == pattern@);
                assert(bindings(segments(path@), segments(path2@), (i + 1) as nat) is None);
                assert(texts(pieces@).len() == pieces@.len());
                assert(texts(patterns@).len() == patterns@.len());
                lemma_bindings_stay_failed(
                    segments(path@),
                    segments(path2@),
                    (i + 1) as nat,
                    count as nat,
                );
            }
            return None;
        }
        i += 1;
    }
    Some(found)
}

/// `std::time::SystemTime`, taken as it is: nothing is seen inside it.
#[verifier::external_type_specification]
#[verifier::external_body]
pub struct ExSystemTime(std::time::SystemTime);

/// `std::time::SystemTimeError`, taken as it is: nothing is seen inside it.
#[verifier::external_type_specification]
#[verifier::external_body]
pub struct ExSystemTimeError(std::time::SystemTimeError);

/// `SystemTime::now` reads the clock: nothing is known of what it returns.
pub assume_specification[ std::time::SystemTime::now ]() -> (t: std::time::SystemTime)
;

/// `SystemTime::duration_since` measures from an earlier time, and fails
/// where that time is in fact later: nothing more is claimed.
pub assume_specification[ std::time::SystemTime::duration_since ](
    t: &std::time::SystemTime,
    earlier: std::time::SystemTime,
) -> (r: Result<std::time::Duration, std::time::SystemTimeError>)
;

/// `Duration::as_secs` gives the whole seconds of a duration: nothing is
/// claimed of the number.
pub assume_specification[ std::time::Duration::as_secs ](d: &std::time::Duration) -> (s: u64)
;

/// The constant `std::time::UNIX_EPOCH`, handed on as it is.
#[verifier::external_body]
fn unix_epoch() -> (t: std::time::SystemTime) {
    std::time::UNIX_EPOCH
}

/// The multiplier of the generator's step.
pub const MULTIPLIER: u64 = 6364136223846793061;

/// The state that follows `state`: times the multiplier, plus one, modulo 2^64.
pub open spec fn step(state: u64) -> u64 {
    ((state as int * MULTIPLIER as int + 1) % 0x1_0000_0000_0000_0000) as u64
}

/// A linear congruential generator.
pub struct SimpleRNG {
    state: u64,
}

impl SimpleRNG {
    /// The generator's current state.
    pub closed spec fn state(&self) -> u64 {
        self.state
    }

    /// A generator seeded by the clock, as `from_reading` says for each
    /// reading. What the clock reads is not known, so no clause speaks of it.
    pub fn new() -> (r: Self) {
        match std::time::SystemTime::now().duration_since(unix_epoch()) {
            Ok(elapsed) => Self::from_reading(Some(elapsed.as_secs())),
            Err(_) => Self::from_reading(None),
        }
    }

    /// A generator seeded by a reading of the clock: the seconds since the
    /// Unix epoch, or `None` for a time before it.
    pub fn from_reading(reading: Option<u64>) -> (r: Self)
        ensures
            r.state() == seed_of(reading),
    {
        match reading {
            Some(seconds) => SimpleRNG { state: seconds },
            None => SimpleRNG { state: 0 },
        }
    }

    /// A generator that starts from `seed`.
    pub fn new_with_seed(seed: u64) -> (r: Self)
        ensures
            r.state() == seed,
    {
        SimpleRNG { state: seed }
    }

    /// Advances the state and returns its upper 48 bits.
    pub fn next(&mut self) -> (r: u64)
        ensures
            final(self).state() == step(old(self).state()),
            r == step(old(self).state()) >> 16,
    {
        let ghost before = self.state;
        self.state = self.state.wrapping_mul(MULTIPLIER).wrapping_add(1);
        assert(self.state == step(before)) by {
            let p = (before as nat * MULTIPLIER as nat) % 0x1_0000_0000_0000_0000nat;
            assert((before as int * MULTIPLIER as int + 1) % 0x1_0000_0000_0000_0000 == (p + 1)
                % 0x1_0000_0000_0000_0000) by (nonlinear_arith)
                requires
                    p == (before as nat * MULTIPLIER as nat) % 0x1_0000_0000_0000_0000nat,
            ;
        }
        self.state >> 16
    }

    /// Advances the state and returns a number from `min` up to, not including, `max`.
    pub fn next_range(&mut self, min: u64, max: u64) -> (r: u64)
        requires
            min < max,
        ensures
            final(self).state() == step(old(self).state()),
            r == min + (step(old(self).state()) >> 16) % ((max - min) as u64),
            min <= r < max,
    {
        let scaled_range = max - min;
        let scaled_random = self.next() % scaled_range;
        min + scaled_random
    }
}

/// The seed that a reading of the clock gives: its seconds, or 0 for a
/// time before the epoch.
pub open spec fn seed_of(reading: Option<u64>) -> u64 {
    match reading {
        Some(seconds) => seconds,
        None => 0,
    }
}

} // verus!
