//! The encode window: the input buffer together with an index of the
//! positions already passed, from which the longest earlier occurrence of
//! the bytes at the cursor is found.

use vstd::prelude::*;

verus! {

/// Shortest match worth looking for.
pub const MIN_MATCH: usize = 3;

/// Longest match a single token can express.
pub const MAX_MATCH: usize = 1028;

/// Farthest distance back that a token can express.
pub const MAX_OFFSET: usize = 131072;

/// Number of buckets of the position index.
const HASH_SIZE: usize = 32768;

/// A back-reference: `length` bytes that already occur `offset` bytes back.
#[derive(Clone, Copy, Debug, PartialEq, Eq, Structural)]
pub struct Match {
    pub length: usize,
    pub offset: usize,
}

/// Number of leading positions, at most `cap`, on which the bytes from `a`
/// agree with the bytes from `b`.
pub open spec fn common_len(s: Seq<u8>, a: int, b: int, cap: int) -> int
    decreases cap,
{
    if cap <= 0 || s[a] != s[b] {
        0
    } else {
        1 + common_len(s, a + 1, b + 1, cap - 1)
    }
}

/// Longest match that may start at position `i`: bounded by the end of the
/// input and by `MAX_MATCH`.
pub open spec fn match_cap(s: Seq<u8>, i: int) -> int {
    if s.len() - i < MAX_MATCH {
        s.len() - i
    } else {
        MAX_MATCH as int
    }
}

/// Farthest offset available at position `i`: bounded by the start of the
/// input and by `MAX_OFFSET`.
pub open spec fn window_reach(i: int) -> int {
    if i < MAX_OFFSET {
        i
    } else {
        MAX_OFFSET as int
    }
}

/// Length of the match at position `i` with the bytes `offset` back.
pub open spec fn match_len(s: Seq<u8>, i: int, offset: int) -> int {
    common_len(s, i - offset, i, match_cap(s, i))
}

/// The best match at `i` among the offsets `1..=reach`, as (length, offset):
/// the longest one of length 3 or more, and among equally long ones the
/// nearest. Without any, the result is `(2, 0)`.
pub open spec fn best_match_within(s: Seq<u8>, i: int, reach: int) -> (int, int)
    decreases reach,
{
    if reach <= 0 {
        (MIN_MATCH - 1, 0)
    } else {
        let nearer = best_match_within(s, i, reach - 1);
        if match_len(s, i, reach) > nearer.0 {
            (match_len(s, i, reach), reach)
        } else {
            nearer
        }
    }
}

/// The match chosen at position `i`: the longest earlier occurrence of the
/// bytes at `i` within the window, the nearest one on a tie, or `None` when
/// no occurrence is at least `MIN_MATCH` long.
pub open spec fn spec_best_match(s: Seq<u8>, i: int) -> Option<Match> {
    let best = best_match_within(s, i, window_reach(i));
    if best.0 >= MIN_MATCH {
        Some(Match { length: best.0 as usize, offset: best.1 as usize })
    } else {
        None
    }
}

/// Bucket of a three-byte prefix.
spec fn spec_hash3(a: u8, b: u8, c: u8) -> int {
    (a * 1024 + b * 32 + c) % (HASH_SIZE as int)
}

/// Bucket of the three bytes at position `q`.
spec fn hash_at(s: Seq<u8>, q: int) -> int {
    spec_hash3(s[q], s[q + 1], s[q + 2])
}

/// No position from `lo` up to, but not including, `hi` has a three-byte
/// prefix in bucket `h`.
#[verifier::opaque]
spec fn no_bucket_between(s: Seq<u8>, h: int, lo: int, hi: int) -> bool {
    forall|q: int| lo <= q < hi && q + 3 <= s.len() ==> #[trigger] hash_at(s, q) != h
}

/// An index entry is 0 for "no position" and `q + 1` for position `q`. The
/// entry names the last position below `bound` whose three bytes fall in
/// bucket `h`.
spec fn nearest_below(s: Seq<u8>, h: int, bound: int, entry: int) -> bool {
    &&& 0 <= entry <= bound
    &&& entry > 0 ==> entry + 2 <= s.len() && hash_at(s, entry - 1) == h
    &&& no_bucket_between(s, h, entry, bound)
}

/// What `common_len` counts: the bytes agree on that many positions, and
/// below the cap the next pair differs.
pub proof fn lemma_common_len(s: Seq<u8>, a: int, b: int, cap: int)
    requires
        0 <= cap,
    ensures
        0 <= common_len(s, a, b, cap) <= cap,
        forall|k: int| 0 <= k < common_len(s, a, b, cap) ==> s[a + k] == #[trigger] s[b + k],
        common_len(s, a, b, cap) < cap ==> s[a + common_len(s, a, b, cap)] != s[b + common_len(
            s,
            a,
            b,
            cap,
        )],
    decreases cap,
{
    if cap > 0 && s[a] == s[b] {
        lemma_common_len(s, a + 1, b + 1, cap - 1);
        let inner = common_len(s, a + 1, b + 1, cap - 1);
        assert forall|k: int| 0 <= k < inner + 1 implies s[a + k] == #[trigger] s[b + k] by {
            if k > 0 {
                assert(s[a + 1 + (k - 1)] == s[b + 1 + (k - 1)]);
            }
        }
    }
}

/// A run of agreeing bytes that is as long as the cap, or is followed by a
/// differing pair, is what `common_len` counts.
pub proof fn lemma_common_len_is(s: Seq<u8>, a: int, b: int, cap: int, run: int)
    requires
        0 <= run <= cap,
        forall|k: int| 0 <= k < run ==> s[a + k] == #[trigger] s[b + k],
        run < cap ==> s[a + run] != s[b + run],
    ensures
        common_len(s, a, b, cap) == run,
    decreases cap,
{
    if run > 0 {
        assert(s[a + 0] == s[b + 0]);
        assert forall|k: int| 0 <= k < run - 1 implies s[a + 1 + k] == #[trigger] s[b + 1
            + k] by {
            assert(s[a + (k + 1)] == s[b + (k + 1)]);
        }
        lemma_common_len_is(s, a + 1, b + 1, cap - 1, run - 1);
    }
}

/// Positions whose three-byte prefixes fall in different buckets cannot
/// start a match of `MIN_MATCH` bytes.
proof fn lemma_bucket_differs(s: Seq<u8>, a: int, b: int, cap: int)
    requires
        hash_at(s, a) != hash_at(s, b),
    ensures
        common_len(s, a, b, cap) < MIN_MATCH,
{
    reveal_with_fuel(common_len, 4);
}

/// What `best_match_within` selects. A selected match is a real match
/// inside the window; no offset within reach gives a longer one; and no
/// nearer offset gives one as long.
pub proof fn lemma_best_match_within(s: Seq<u8>, i: int, reach: int)
    requires
        0 <= reach <= i <= s.len(),
    ensures
        ({
            let (length, offset) = best_match_within(s, i, reach);
            &&& MIN_MATCH - 1 <= length
            &&& length >= MIN_MATCH ==> 1 <= offset <= reach && length == match_len(s, i, offset)
                && length <= match_cap(s, i)
            &&& length < MIN_MATCH ==> offset == 0
            &&& forall|d: int| 1 <= d <= reach ==> #[trigger] match_len(s, i, d) <= length
            &&& forall|d: int| 1 <= d < offset ==> #[trigger] match_len(s, i, d) < length
        }),
    decreases reach,
{
    if reach > 0 {
        lemma_best_match_within(s, i, reach - 1);
        lemma_common_len(s, i - reach, i, match_cap(s, i));
    }
}

/// Offsets that give nothing longer than the best match so far leave the
/// best match unchanged.
pub proof fn lemma_best_match_extend(s: Seq<u8>, i: int, near: int, far: int)
    requires
        0 <= near <= far,
        forall|d: int| near < d <= far ==> #[trigger] match_len(s, i, d) <= best_match_within(
            s,
            i,
            near,
        ).0,
    ensures
        best_match_within(s, i, far) == best_match_within(s, i, near),
    decreases far - near,
{
    if near < far {
        lemma_best_match_extend(s, i, near, far - 1);
        assert(match_len(s, i, far) <= best_match_within(s, i, near).0);
    }
}

/// Offsets whose positions fall in other buckets than the cursor's leave
/// the best match unchanged.
proof fn lemma_skip_other_buckets(s: Seq<u8>, i: int, near: int, far: int, lo: int)
    requires
        0 <= near <= far <= i,
        i + 3 <= s.len(),
        lo <= i - far,
        no_bucket_between(s, hash_at(s, i), lo, i - near),
    ensures
        best_match_within(s, i, far) == best_match_within(s, i, near),
{
    reveal(no_bucket_between);
    lemma_best_match_within(s, i, near);
    assert forall|d: int| near < d <= far implies #[trigger] match_len(s, i, d)
        <= best_match_within(s, i, near).0 by {
        assert(hash_at(s, i - d) != hash_at(s, i));
        lemma_bucket_differs(s, i - d, i, match_cap(s, i));
    }
    lemma_best_match_extend(s, i, near, far);
}

/// Once the best match is as long as a match can be, farther offsets leave
/// it unchanged.
proof fn lemma_skip_when_longest(s: Seq<u8>, i: int, near: int, far: int)
    requires
        0 <= near <= far <= i <= s.len(),
        best_match_within(s, i, near).0 >= match_cap(s, i),
    ensures
        best_match_within(s, i, far) == best_match_within(s, i, near),
{
    assert forall|d: int| near < d <= far implies #[trigger] match_len(s, i, d)
        <= best_match_within(s, i, near).0 by {
        lemma_common_len(s, i - d, i, match_cap(s, i));
    }
    lemma_best_match_extend(s, i, near, far);
}

/// Entering position `pos` into bucket `h` keeps every other bucket's head
/// the nearest position of its bucket.
proof fn lemma_head_after_insert(s: Seq<u8>, k: int, pos: int, entry: int)
    requires
        nearest_below(s, k, pos, entry),
        pos + 3 <= s.len() ==> hash_at(s, pos) != k,
    ensures
        nearest_below(s, k, pos + 1, entry),
{
    reveal(no_bucket_between);
}

/// With no position entered, no bucket has a nearest position.
proof fn lemma_head_of_empty(s: Seq<u8>, k: int)
    ensures
        nearest_below(s, k, 0, 0),
{
    reveal(no_bucket_between);
}

/// The position just entered is the nearest of its own bucket.
proof fn lemma_head_of_inserted(s: Seq<u8>, pos: int)
    requires
        0 <= pos,
        pos + 3 <= s.len(),
    ensures
        nearest_below(s, hash_at(s, pos), pos + 1, pos + 1),
{
    reveal(no_bucket_between);
}

/// The match chosen at a position is a real one: it lies inside the input
/// and the window, has an admissible length, and the bytes it refers to
/// equal the bytes at the position.
pub proof fn lemma_best_match_sound(s: Seq<u8>, i: int)
    requires
        0 <= i <= s.len(),
        spec_best_match(s, i) is Some,
    ensures
        ({
            let m = spec_best_match(s, i)->Some_0;
            &&& MIN_MATCH <= m.length <= MAX_MATCH
            &&& i + m.length <= s.len()
            &&& 1 <= m.offset <= i
            &&& m.offset <= MAX_OFFSET
            &&& forall|k: int| 0 <= k < m.length ==> s[i - m.offset + k] == #[trigger] s[i + k]
        }),
{
    lemma_best_match_within(s, i, window_reach(i));
    let best = best_match_within(s, i, window_reach(i));
    lemma_common_len(s, i - best.1, i, match_cap(s, i));
}

/// The match chosen at a position is the longest in the window, and the
/// nearest among the longest.
pub proof fn lemma_best_match_optimal(s: Seq<u8>, i: int, d: int)
    requires
        0 <= i <= s.len(),
        1 <= d <= window_reach(i),
    ensures
        match spec_best_match(s, i) {
            Some(m) => match_len(s, i, d) <= m.length && (d < m.offset ==> match_len(s, i, d)
                < m.length),
            None => match_len(s, i, d) < MIN_MATCH,
        },
{
    lemma_best_match_within(s, i, window_reach(i));
}

/// The input buffer with a cursor and an index of the positions before it.
///
/// Each bucket of the index heads a chain through the earlier positions
/// whose three-byte prefix falls in that bucket, nearest first.
pub struct EncodeWindow<'a> {
    input: &'a [u8],
    head: Vec<usize>,
    link: Vec<usize>,
    cursor: usize,
}

fn hash3(a: u8, b: u8, c: u8) -> (h: usize)
    ensures
        h == spec_hash3(a, b, c),
        h < HASH_SIZE,
{
    ((a as usize) * 1024 + (b as usize) * 32 + (c as usize)) % HASH_SIZE
}

/// Counts on how many leading positions, at most `cap`, the bytes from `a`
/// agree with the bytes from `b`.
fn common_run(input: &[u8], a: usize, b: usize, cap: usize) -> (run: usize)
    requires
        a <= b,
        b + cap <= input@.len(),
    ensures
        run == common_len(input@, a as int, b as int, cap as int),
{
    let total: usize = input.len();
    let mut run: usize = 0;
    while run < cap && input[a + run] == input[b + run]
        invariant
            run <= cap,
            a <= b,
            b + cap <= input@.len(),
            total == input@.len(),
            forall|k: int| 0 <= k < run ==> input@[a + k] == #[trigger] input@[b + k],
        decreases cap - run,
    {
        run = run + 1;
    }
    proof {
        lemma_common_len_is(input@, a as int, b as int, cap as int, run as int);
    }
    run
}

impl<'a> EncodeWindow<'a> {
    /// The bytes the window looks at.
    pub closed spec fn spec_input(&self) -> Seq<u8> {
        self.input@
    }

    /// The position the window stands at.
    pub closed spec fn spec_cursor(&self) -> int {
        self.cursor as int
    }

    /// The index covers exactly the positions before the cursor.
    pub closed spec fn well_formed(&self) -> bool {
        let s = self.input@;
        &&& self.cursor <= s.len()
        &&& self.head@.len() == HASH_SIZE
        &&& self.link@.len() == s.len()
        &&& forall|h: int|
            0 <= h < HASH_SIZE ==> nearest_below(s, h, self.cursor as int, #[trigger] self.head@[h] as int)
        &&& forall|p: int|
            0 <= p < self.cursor && p + 3 <= s.len() ==> nearest_below(
                s,
                hash_at(s, p),
                p,
                #[trigger] self.link@[p] as int,
            )
    }

    /// A window at the start of `input`, with an empty index.
    pub fn new(input: &'a [u8]) -> (window: Self)
        ensures
            window.well_formed(),
            window.spec_input() == input@,
            window.spec_cursor() == 0,
    {
        let head: Vec<usize> = vec![0usize; HASH_SIZE];
        let link: Vec<usize> = vec![0usize; input.len()];
        proof {
            assert forall|k: int| 0 <= k < HASH_SIZE implies nearest_below(
                input@,
                k,
                0,
                #[trigger] head@[k] as int,
            ) by {
                lemma_head_of_empty(input@, k);
            }
        }
        EncodeWindow { input, head, link, cursor: 0 }
    }

    /// The position the window stands at.
    pub fn cursor(&self) -> (pos: usize)
        requires
            self.well_formed(),
        ensures
            pos == self.spec_cursor(),
            pos <= self.spec_input().len(),
    {
        self.cursor
    }

    /// Moves the cursor one position on and enters the position it leaves
    /// into the index. At the end of the input the window stays as it is.
    pub fn advance(&mut self)
        requires
            old(self).well_formed(),
        ensures
            final(self).well_formed(),
            final(self).spec_input() == old(self).spec_input(),
            final(self).spec_cursor() == if old(self).spec_cursor() < old(self).spec_input().len() {
                old(self).spec_cursor() + 1
            } else {
                old(self).spec_cursor()
            },
    {
        let pos: usize = self.cursor;
        if pos >= self.input.len() {
            return ;
        }
        let ghost s = self.input@;
        let ghost old_head = self.head@;
        let ghost old_link = self.link@;
        if self.input.len() - pos >= 3 {
            let h: usize = hash3(self.input[pos], self.input[pos + 1], self.input[pos + 2]);
            let before: usize = self.head[h];
            self.link.set(pos, before);
            self.head.set(h, pos + 1);
            self.cursor = pos + 1;
            proof {
                assert forall|k: int| 0 <= k < HASH_SIZE implies nearest_below(
                    s,
                    k,
                    pos + 1,
                    #[trigger] self.head@[k] as int,
                ) by {
                    if k != h {
                        lemma_head_after_insert(s, k, pos as int, old_head[k] as int);
                    } else {
                        lemma_head_of_inserted(s, pos as int);
                    }
                }
                assert forall|p: int| 0 <= p < pos + 1 && p + 3 <= s.len() implies nearest_below(
                    s,
                    hash_at(s, p),
                    p,
                    #[trigger] self.link@[p] as int,
                ) by {
                    if p < pos {
                        assert(self.link@[p] == old_link[p]);
                    } else {
                        assert(self.link@[p] == old_head[h as int]);
                    }
                }
            }
        } else {
            self.cursor = pos + 1;
            proof {
                assert forall|k: int| 0 <= k < HASH_SIZE implies nearest_below(
                    s,
                    k,
                    pos + 1,
                    #[trigger] self.head@[k] as int,
                ) by {
                    lemma_head_after_insert(s, k, pos as int, old_head[k] as int);
                }
            }
        }
    }

    /// Finds the best match at the cursor: the longest earlier occurrence
    /// of the bytes at the cursor that starts within `MAX_OFFSET` bytes
    /// back, and the nearest one among equally long ones. `None` when no
    /// occurrence is at least `MIN_MATCH` bytes long.
    pub fn find_match(&self) -> (res: Option<Match>)
        requires
            self.well_formed(),
        ensures
            res == spec_best_match(self.spec_input(), self.spec_cursor()),
    {
        let pos: usize = self.cursor;
        let total: usize = self.input.len();
        let remaining: usize = total - pos;
        let cap: usize = if remaining < MAX_MATCH {
            remaining
        } else {
            MAX_MATCH
        };
        let ghost s = self.input@;
        let ghost reach = window_reach(pos as int);
        if cap < MIN_MATCH {
            proof {
                lemma_skip_when_longest(s, pos as int, 0, reach);
            }
            return None;
        }
        let h: usize = hash3(self.input[pos], self.input[pos + 1], self.input[pos + 2]);
        let mut entry: usize = self.head[h];
        let mut best_length: usize = MIN_MATCH - 1;
        let mut best_offset: usize = 0;
        let ghost mut done: int = 0;
        loop
            invariant_except_break
                0 <= done <= reach,
                nearest_below(s, h as int, pos - done, entry as int),
                (best_length as int, best_offset as int) == best_match_within(s, pos as int, done),
                best_length < cap,
            invariant
                self.well_formed(),
                s == self.input@,
                pos == self.cursor,
                total == s.len(),
                pos + cap <= s.len(),
                cap == match_cap(s, pos as int),
                MIN_MATCH <= cap <= MAX_MATCH,
                reach == window_reach(pos as int),
                h == hash_at(s, pos as int),
                best_offset <= MAX_OFFSET,
            ensures
                (best_length as int, best_offset as int) == best_match_within(
                    s,
                    pos as int,
                    reach,
                ),
            decreases entry,
        {
            if entry == 0 || pos - (entry - 1) > MAX_OFFSET {
                proof {
                    lemma_skip_other_buckets(s, pos as int, done, reach, entry as int);
                }
                break ;
            }
            let candidate: usize = entry - 1;
            let offset: usize = pos - candidate;
            proof {
                lemma_skip_other_buckets(s, pos as int, done, offset - 1, entry as int);
                lemma_common_len(s, candidate as int, pos as int, cap as int);
            }
            // A longer match than the best so far has to agree with the
            // cursor at the position just behind the best length.
            if self.input[candidate + best_length] == self.input[pos + best_length] {
                let length: usize = common_run(self.input, candidate, pos, cap);
                if length > best_length {
                    best_length = length;
                    best_offset = offset;
                }
            } else {
                assert(match_len(s, pos as int, offset as int) <= best_length) by {
                    if match_len(s, pos as int, offset as int) > best_length {
                        assert(s[candidate + best_length] == s[pos + best_length]);
                    }
                }
            }
            proof {
                done = offset as int;
                assert((best_length as int, best_offset as int) == best_match_within(
                    s,
                    pos as int,
                    done,
                ));
            }
            if best_length == cap {
                proof {
                    lemma_skip_when_longest(s, pos as int, done, reach);
                }
                break ;
            }
            entry = self.link[candidate];
        }
        if best_length >= MIN_MATCH {
            Some(Match { length: best_length, offset: best_offset })
        } else {
            None
        }
    }
}

} // verus!
