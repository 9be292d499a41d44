//! A simple glob matcher for paths.
use vstd::prelude::*;
use vstd::utf8::*;
use vstd::string::*;

verus! {

/// The length in bytes of the character at `i`, as far as the matcher steps over it,
/// or 0 when no character can be skipped there (end of input, a `/`, or a byte that
/// cannot start a character).
pub open spec fn char_len(h: Seq<u8>, i: int) -> int {
    if i < 0 || i >= h.len() || h[i] == 0x2f {
        0
    } else if h[i] <= 0x7f {
        1
    } else if 0xc0 <= h[i] <= 0xdf {
        if i + 2 <= h.len() { 2 } else { 0 }
    } else if 0xe0 <= h[i] <= 0xef {
        if i + 3 <= h.len() { 3 } else { 0 }
    } else if 0xf0 <= h[i] <= 0xf7 {
        if i + 4 <= h.len() { 4 } else { 0 }
    } else {
        0
    }
}


/// True when the pattern holds the wildcard `/**/` at position `i`.
pub open spec fn any_dirs_at(p: Seq<u8>, i: int) -> bool {
    &&& 0 <= i
    &&& i + 4 <= p.len()
    &&& p[i] == 0x2f
    &&& p[i + 1] == 0x2a
    &&& p[i + 2] == 0x2a
    &&& p[i + 3] == 0x2f
}

/// Does the pattern from `pi` match all of the path from `hi`?
///
/// In directory mode the pattern must instead match up to a `/` of the path.
pub open spec fn glob_at(p: Seq<u8>, h: Seq<u8>, dir: bool, pi: int, hi: int) -> bool
    decreases p.len() - pi, h.len() - hi, 0int,
{
    if pi >= p.len() {
        if dir {
            0 <= hi < h.len() && h[hi] == 0x2f
        } else {
            hi >= h.len()
        }
    } else if any_dirs_at(p, pi) {
        0 <= hi < h.len() && h[hi] == 0x2f && glob_dirs(p, h, dir, pi + 4, hi + 1)
    } else if p[pi] == 0x2a {
        glob_star(p, h, dir, pi + 1, hi)
    } else if p[pi] == 0x3f {
        char_len(h, hi) > 0 && glob_at(p, h, dir, pi + 1, hi + char_len(h, hi))
    } else {
        0 <= hi < h.len() && h[hi] == p[pi] && glob_at(p, h, dir, pi + 1, hi + 1)
    }
}

/// A `*` ending just before `pi` was reached at `hi`: it may cover zero or more
/// characters (never a `/`) before the rest of the pattern matches.
pub open spec fn glob_star(p: Seq<u8>, h: Seq<u8>, dir: bool, pi: int, hi: int) -> bool
    decreases p.len() - pi, h.len() - hi, 1int,
{
    glob_at(p, h, dir, pi, hi) || (char_len(h, hi) > 0 && glob_star(
        p,
        h,
        dir,
        pi,
        hi + char_len(h, hi),
    ))
}

/// A `/**/` ending just before `pi` has matched a `/` just before `hi`: it may also
/// cover zero or more complete path components before the rest of the pattern matches.
pub open spec fn glob_dirs(p: Seq<u8>, h: Seq<u8>, dir: bool, pi: int, hi: int) -> bool
    decreases p.len() - pi, h.len() - hi, 2int,
{
    glob_at(p, h, dir, pi, hi) || glob_dirs_after(p, h, dir, pi, hi)
}

/// The `/**/` covers the path component at `hi` and more: the rest of the pattern
/// matches after some `/` at or after `hi`.
pub open spec fn glob_dirs_after(p: Seq<u8>, h: Seq<u8>, dir: bool, pi: int, hi: int) -> bool
    decreases p.len() - pi, h.len() - hi, 1int,
{
    0 <= hi < h.len() && if h[hi] == 0x2f {
        glob_dirs(p, h, dir, pi, hi + 1)
    } else {
        glob_dirs_after(p, h, dir, pi, hi + 1)
    }
}

/// The glob pattern `p` matches all of the path `h` (or, in directory mode, a
/// directory prefix of it).
pub open spec fn glob_match_all(p: Seq<u8>, h: Seq<u8>, dir: bool) -> bool {
    glob_at(p, h, dir, 0, 0)
}

/// How many bytes of a trailing `/`, `/**` or `/**/` the pattern ends with (0 if none).
pub open spec fn trailing_dir_len(p: Seq<u8>) -> int {
    let n = p.len() as int;
    if n >= 4 && p[n - 4] == 0x2f && p[n - 3] == 0x2a && p[n - 2] == 0x2a && p[n - 1] == 0x2f {
        4
    } else if n >= 3 && p[n - 3] == 0x2f && p[n - 2] == 0x2a && p[n - 1] == 0x2a {
        3
    } else if n >= 1 && p[n - 1] == 0x2f {
        1
    } else {
        0
    }
}

/// A pattern that ends with `/` (or `/**`, or `/**/`) matches a directory and all
/// that lies below it.
pub open spec fn pattern_is_dir(p: Seq<u8>) -> bool {
    trailing_dir_len(p) > 0
}

/// The part of the pattern that is matched: without the trailing directory marker
/// and without a redundant leading `**/`.
pub open spec fn pattern_body(p: Seq<u8>) -> Seq<u8> {
    let q = p.subrange(0, p.len() - trailing_dir_len(p));
    if q.len() >= 3 && q[0] == 0x2a && q[1] == 0x2a && q[2] == 0x2f {
        q.subrange(3, q.len() as int)
    } else {
        q
    }
}

/// Offset `off` is the start of a path component: the start of the path, or just
/// after a `/`.
pub open spec fn component_start(h: Seq<u8>, off: int) -> bool {
    off == 0 || (1 <= off <= h.len() && h[off - 1] == 0x2f)
}

/// The glob pattern `p` matches the path `h`: its body matches all of the path from
/// the start of some component on (or, for a directory pattern, a directory prefix of it).
pub open spec fn glob_matches(p: Seq<u8>, h: Seq<u8>) -> bool {
    exists|off: int|
        #![trigger component_start(h, off)]
        component_start(h, off) && glob_match_all(
            pattern_body(p),
            h.subrange(off, h.len() as int),
            pattern_is_dir(p),
        )
}

/// Skip one character from the start of the path, and return the remainder.
///
/// Returns `None` if the path is empty or starts with a `/` or invalid character.
fn skip_char(haystack: &[u8]) -> (res: Option<&[u8]>)
    ensures
        (res is Some) == (char_len(haystack@, 0) > 0),
        res matches Some(r) ==> r@ == haystack@.subrange(char_len(haystack@, 0), haystack@.len() as int),
{
    let len = haystack.len();
    if len == 0 {
        return None;
    }
    let c = haystack[0];
    if c == 0x2f {
        None
    } else if c <= 0x7f {
        Some(&haystack[1..len])
    } else if 0xc0 <= c && c <= 0xdf {
        if 2 <= len { Some(&haystack[2..len]) } else { None }
    } else if 0xe0 <= c && c <= 0xef {
        if 3 <= len { Some(&haystack[3..len]) } else { None }
    } else if 0xf0 <= c && c <= 0xf7 {
        if 4 <= len { Some(&haystack[4..len]) } else { None }
    } else {
        None
    }
}


/// Backtracking state of `match_all`: the most recent `*` resumes the pattern at
/// `star_p` with the path at `star_h`; the most recent `/**/` resumes it at `dirs_p`
/// with the path at `dirs_h`. Of two live points, `star_inner` tells which is newer.
/// The older point (or the only one) comes first in the termination measure.
spec fn older_pos(
    hlen: int, star_set: bool, star_h: int, dirs_set: bool, dirs_h: int, star_inner: bool,
) -> int {
    if !star_set && !dirs_set {
        hlen + 2
    } else if (star_inner && !dirs_set) || (!star_inner && star_set) {
        hlen + 1 - star_h
    } else {
        hlen + 1 - dirs_h
    }
}

spec fn older_pat(
    plen: int, star_set: bool, star_p: int, dirs_set: bool, dirs_p: int, star_inner: bool,
) -> int {
    if !star_set && !dirs_set {
        0
    } else if (star_inner && !dirs_set) || (!star_inner && star_set) {
        plen + 1 - star_p
    } else {
        plen + 1 - dirs_p
    }
}

spec fn newer_pos(
    hlen: int, star_set: bool, star_h: int, dirs_set: bool, dirs_h: int, star_inner: bool,
) -> int {
    if !(star_set && dirs_set) {
        hlen + 2
    } else if star_inner {
        hlen + 1 - star_h
    } else {
        hlen + 1 - dirs_h
    }
}

spec fn newer_pat(
    plen: int, star_set: bool, star_p: int, dirs_set: bool, dirs_p: int, star_inner: bool,
) -> int {
    if !(star_set && dirs_set) {
        0
    } else if star_inner {
        plen + 1 - star_p
    } else {
        plen + 1 - dirs_p
    }
}


// ---------------------------------------------------------------------------
// Facts used to show that the backtracking search misses no match.
// ---------------------------------------------------------------------------

/// A UTF-8 continuation byte.
pub open spec fn is_cont(b: u8) -> bool {
    0x80 <= b <= 0xbf
}

/// Position `i` of `s` is the end of `s` or does not hold a continuation byte.
pub open spec fn at_boundary(s: Seq<u8>, i: int) -> bool {
    i == s.len() || (0 <= i < s.len() && !is_cont(s[i]))
}

/// The length of the UTF-8 encoding that starts with the leading byte `b`.
pub open spec fn utf8_width(b: u8) -> int {
    if b <= 0x7f {
        1
    } else if 0xc0 <= b <= 0xdf {
        2
    } else if 0xe0 <= b <= 0xef {
        3
    } else {
        4
    }
}

/// The number of `/` bytes in `s[a..b]`.
pub open spec fn slashes(s: Seq<u8>, a: int, b: int) -> int
    decreases b - a,
{
    if b <= a {
        0
    } else {
        slashes(s, a, b - 1) + if s[b - 1] == 0x2f {
            1int
        } else {
            0int
        }
    }
}

/// Repeatedly skipping one character from `x` reaches `y`.
pub open spec fn steps_to(h: Seq<u8>, x: int, y: int) -> bool
    decreases y - x,
{
    x == y || (x < y && char_len(h, x) > 0 && x + char_len(h, x) <= y && steps_to(
        h,
        x + char_len(h, x),
        y,
    ))
}

/// No `*` and no `/**/` starts in `p[a..b]`: the pattern matches there without choices.
pub open spec fn plain_segment(p: Seq<u8>, a: int, b: int) -> bool {
    forall|j: int| a <= j < b ==> !any_dirs_at(p, j) && p[j] != 0x2a
}

/// No `/**/` starts in `p[a..b]`.
pub open spec fn no_any_dirs(p: Seq<u8>, a: int, b: int) -> bool {
    forall|j: int| a <= j < b ==> !any_dirs_at(p, j)
}

/// Where the path stands after `p[a..b]` (a plain segment) matched from `x`, or -1.
pub open spec fn run(p: Seq<u8>, h: Seq<u8>, a: int, x: int, b: int) -> int
    decreases b - a,
{
    if a >= b {
        x
    } else if p[a] == 0x3f {
        if char_len(h, x) > 0 {
            run(p, h, a + 1, x + char_len(h, x), b)
        } else {
            -1
        }
    } else if 0 <= x < h.len() && h[x] == p[a] {
        run(p, h, a + 1, x + 1, b)
    } else {
        -1
    }
}

/// A character of valid UTF-8 at a boundary: its leading byte, its continuation
/// bytes, and the boundary after it.
proof fn lemma_utf8_char(s: Seq<u8>, i: int)
    requires
        valid_utf8(s),
        0 <= i < s.len(),
        !is_cont(s[i]),
    ensures
        s[i] <= 0x7f || (0xc0 <= s[i] <= 0xf7),
        i + utf8_width(s[i]) <= s.len(),
        forall|j: int| i < j < i + utf8_width(s[i]) ==> is_cont(#[trigger] s[j]),
        at_boundary(s, i + utf8_width(s[i])),
{
    is_char_boundary_iff_not_is_continuation_byte(s, i);
    valid_utf8_split(s, i);
    let t = s.subrange(i, s.len() as int);
    assert(valid_first_scalar(t));
    let w = utf8_width(s[i]);
    assert(t[0] == s[i]);
    assert forall|j: int| i < j < i + w implies is_cont(#[trigger] s[j]) by {
        assert(t[j - i] == s[j]);
    }
    if i + w < s.len() {
        let r = pop_first_scalar(t);
        assert(valid_utf8(r));
        assert(r.len() > 0);
        assert(valid_first_scalar(r));
        assert(r[0] == s[i + w]);
    }
}

/// A step over one character never steps over a `/` in valid UTF-8.
proof fn lemma_char_len_no_slash(h: Seq<u8>, x: int)
    requires
        valid_utf8(h),
        char_len(h, x) > 0,
    ensures
        char_len(h, x) == utf8_width(h[x]),
        forall|j: int| x <= j < x + char_len(h, x) ==> h[j] != 0x2f,
        slashes(h, 0, x + char_len(h, x)) == slashes(h, 0, x),
{
    lemma_utf8_char(h, x);
    let w = char_len(h, x);
    assert forall|j: int| x <= j < x + w implies h[j] != 0x2f by {
        if j > x {
            assert(is_cont(h[j]));
        }
    }
    lemma_slashes_none(h, x, x + w);
}

proof fn lemma_slashes_none(s: Seq<u8>, a: int, b: int)
    requires
        0 <= a <= b <= s.len(),
        forall|j: int| a <= j < b ==> s[j] != 0x2f,
    ensures
        slashes(s, 0, b) == slashes(s, 0, a),
    decreases b - a,
{
    if a < b {
        lemma_slashes_none(s, a, b - 1);
    }
}

/// `slashes(s, 0, _)` never decreases.
proof fn lemma_slashes_mono(s: Seq<u8>, a: int, b: int)
    requires
        0 <= a <= b <= s.len(),
    ensures
        slashes(s, 0, a) <= slashes(s, 0, b),
    decreases b - a,
{
    if a < b {
        lemma_slashes_mono(s, a, b - 1);
    }
}

/// Counting from the front.
proof fn lemma_slashes_front(s: Seq<u8>, a: int, b: int)
    requires
        a < b,
    ensures
        slashes(s, a, b) == slashes(s, a + 1, b) + if s[a] == 0x2f {
            1int
        } else {
            0int
        },
    decreases b - a,
{
    if a + 1 < b {
        lemma_slashes_front(s, a, b - 1);
        assert(slashes(s, a + 1, b) == slashes(s, a + 1, b - 1) + if s[b - 1] == 0x2f {
            1int
        } else {
            0int
        });
    } else {
        assert(slashes(s, a, a) == 0);
        assert(slashes(s, a + 1, b) == 0);
    }
}

proof fn lemma_steps_trans(h: Seq<u8>, x: int, y: int, z: int)
    requires
        steps_to(h, x, y),
        steps_to(h, y, z),
    ensures
        steps_to(h, x, z),
    decreases y - x,
{
    if x != y {
        lemma_steps_trans(h, x + char_len(h, x), y, z);
    }
}

proof fn lemma_steps_bounds(h: Seq<u8>, x: int, y: int)
    requires
        0 <= x <= h.len(),
        steps_to(h, x, y),
    ensures
        x <= y <= h.len(),
    decreases y - x,
{
    if x != y {
        lemma_steps_bounds(h, x + char_len(h, x), y);
    }
}

/// Steps over characters never pass a `/` in valid UTF-8.
proof fn lemma_steps_slashes(h: Seq<u8>, x: int, y: int)
    requires
        valid_utf8(h),
        0 <= x <= h.len(),
        steps_to(h, x, y),
    ensures
        slashes(h, 0, y) == slashes(h, 0, x),
    decreases y - x,
{
    if x != y {
        lemma_char_len_no_slash(h, x);
        lemma_steps_slashes(h, x + char_len(h, x), y);
    }
}

/// A later point reached by steps lies past the character at `x`, so `x` holds no `/`.
proof fn lemma_steps_from_slash(h: Seq<u8>, x: int, y: int)
    requires
        steps_to(h, x, y),
        0 <= x < h.len(),
        h[x] == 0x2f,
    ensures
        x == y,
{
}

/// A match after steps from `x` is a match of a `*` at `x`.
proof fn lemma_star_from_steps(p: Seq<u8>, h: Seq<u8>, dir: bool, pi: int, x: int, y: int)
    requires
        steps_to(h, x, y),
        glob_at(p, h, dir, pi, y),
    ensures
        glob_star(p, h, dir, pi, x),
    decreases y - x,
{
    if x != y {
        lemma_star_from_steps(p, h, dir, pi, x + char_len(h, x), y);
    }
}

/// A `*` at `x` matches by covering the characters up to some `y`.
proof fn lemma_star_witness(p: Seq<u8>, h: Seq<u8>, dir: bool, pi: int, x: int) -> (y: int)
    requires
        glob_star(p, h, dir, pi, x),
    ensures
        steps_to(h, x, y),
        glob_at(p, h, dir, pi, y),
    decreases h.len() - x,
{
    if glob_at(p, h, dir, pi, x) {
        x
    } else {
        let y = lemma_star_witness(p, h, dir, pi, x + char_len(h, x));
        y
    }
}

/// Any `/` at or after `x` may end the components that a `/**/` covers.
proof fn lemma_dirs_after_from(p: Seq<u8>, h: Seq<u8>, dir: bool, pi: int, x: int, k: int)
    requires
        0 <= x <= k < h.len(),
        h[k] == 0x2f,
        glob_dirs(p, h, dir, pi, k + 1),
    ensures
        glob_dirs_after(p, h, dir, pi, x),
    decreases k - x,
{
    if x < k {
        lemma_dirs_after_from(p, h, dir, pi, x + 1, k);
        assert(glob_dirs(p, h, dir, pi, x + 1));
    }
}

/// With `k` the first `/` at or after `x`, extending a `/**/` to just after `k` loses nothing.
proof fn lemma_dirs_after_first(p: Seq<u8>, h: Seq<u8>, dir: bool, pi: int, x: int, k: int)
    requires
        0 <= x <= k < h.len(),
        h[k] == 0x2f,
        forall|j: int| x <= j < k ==> h[j] != 0x2f,
    ensures
        glob_dirs_after(p, h, dir, pi, x) == glob_dirs(p, h, dir, pi, k + 1),
    decreases k - x,
{
    if x < k {
        lemma_dirs_after_first(p, h, dir, pi, x + 1, k);
    }
}

/// With no `/` at or after `x`, a `/**/` can cover no more components.
proof fn lemma_dirs_after_none(p: Seq<u8>, h: Seq<u8>, dir: bool, pi: int, x: int)
    requires
        0 <= x <= h.len(),
        forall|j: int| x <= j < h.len() ==> h[j] != 0x2f,
    ensures
        !glob_dirs_after(p, h, dir, pi, x),
    decreases h.len() - x,
{
    if x < h.len() {
        lemma_dirs_after_none(p, h, dir, pi, x + 1);
    }
}

/// A `/**/` covering more components matches after some `/` at `k >= x`.
proof fn lemma_dirs_after_witness(p: Seq<u8>, h: Seq<u8>, dir: bool, pi: int, x: int) -> (k: int)
    requires
        0 <= x,
        glob_dirs_after(p, h, dir, pi, x),
    ensures
        x <= k < h.len(),
        h[k] == 0x2f,
        glob_at(p, h, dir, pi, k + 1),
    decreases h.len() - x, 0int,
{
    if h[x] == 0x2f {
        if glob_at(p, h, dir, pi, x + 1) {
            x
        } else {
            assert(glob_dirs(p, h, dir, pi, x + 1));
            lemma_dirs_after_witness(p, h, dir, pi, x + 1)
        }
    } else {
        lemma_dirs_after_witness(p, h, dir, pi, x + 1)
    }
}

/// A plain segment matches exactly when its single run succeeds and the rest matches.
proof fn lemma_run_glob(p: Seq<u8>, h: Seq<u8>, dir: bool, a: int, b: int, x: int)
    requires
        0 <= a <= b <= p.len(),
        plain_segment(p, a, b),
        0 <= x <= h.len(),
    ensures
        run(p, h, a, x, b) >= 0 ==> x <= run(p, h, a, x, b) <= h.len() && glob_at(p, h, dir, a, x)
            == glob_at(p, h, dir, b, run(p, h, a, x, b)),
        run(p, h, a, x, b) < 0 ==> run(p, h, a, x, b) == -1 && !glob_at(p, h, dir, a, x),
    decreases b - a,
{
    if a < b {
        assert(!any_dirs_at(p, a) && p[a] != 0x2a);
        if p[a] == 0x3f {
            if char_len(h, x) > 0 {
                lemma_run_glob(p, h, dir, a + 1, b, x + char_len(h, x));
            }
        } else if 0 <= x < h.len() && h[x] == p[a] {
            lemma_run_glob(p, h, dir, a + 1, b, x + 1);
        }
    }
}

/// One more step of a run.
proof fn lemma_run_snoc(p: Seq<u8>, h: Seq<u8>, a: int, x: int, b: int)
    requires
        a <= b,
        run(p, h, a, x, b) >= 0,
    ensures
        run(p, h, a, x, b + 1) == ({
            let y = run(p, h, a, x, b);
            if p[b] == 0x3f {
                if char_len(h, y) > 0 {
                    y + char_len(h, y)
                } else {
                    -1
                }
            } else if 0 <= y < h.len() && h[y] == p[b] {
                y + 1
            } else {
                -1
            }
        }),
    decreases b - a,
{
    if a < b {
        if p[a] == 0x3f {
            lemma_run_snoc(p, h, a + 1, x + char_len(h, x), b);
        } else {
            lemma_run_snoc(p, h, a + 1, x + 1, b);
        }
    } else {
        assert(run(p, h, b + 1, x + char_len(h, x), b + 1) == x + char_len(h, x));
        assert(run(p, h, b + 1, x + 1, b + 1) == x + 1);
    }
}

/// A run over `w` literal bytes.
proof fn lemma_run_literal(p: Seq<u8>, h: Seq<u8>, a: int, x: int, b: int, w: int)
    requires
        0 <= x <= h.len(),
        0 <= w,
        a + w <= b,
        forall|j: int| a <= j < a + w ==> p[j] != 0x3f,
        run(p, h, a, x, b) >= 0,
    ensures
        x + w <= h.len(),
        forall|j: int| x <= j < x + w ==> #[trigger] h[j] == p[a + (j - x)],
        run(p, h, a, x, b) == run(p, h, a + w, x + w, b),
    decreases w,
{
    if w > 0 {
        lemma_run_literal(p, h, a + 1, x + 1, b, w - 1);
        assert forall|j: int| x <= j < x + w implies #[trigger] h[j] == p[a + (j - x)] by {
            if j > x {
                assert(h[j] == p[(a + 1) + (j - (x + 1))]);
            }
        }
    }
}

/// Two runs of a plain segment, the second starting some characters later in the
/// same path component, end that many characters apart; once the segment has
/// matched a `/` they end at the same place.
proof fn lemma_shift(p: Seq<u8>, h: Seq<u8>, a: int, b: int, x: int, x2: int)
    requires
        valid_utf8(p),
        0 <= a <= b <= p.len(),
        at_boundary(p, a),
        at_boundary(p, b),
        plain_segment(p, a, b),
        0 <= x <= h.len(),
        steps_to(h, x, x2),
        run(p, h, a, x, b) >= 0,
        run(p, h, a, x2, b) >= 0,
    ensures
        steps_to(h, run(p, h, a, x, b), run(p, h, a, x2, b)),
        (exists|j: int| a <= j < b && p[j] == 0x2f) ==> run(p, h, a, x, b) == run(p, h, a, x2, b),
    decreases b - a,
{
    if a < b && x != x2 {
        lemma_utf8_char(p, a);
        let w = utf8_width(p[a]);
        assert(a + w <= b) by {
            if b < a + w {
                assert(is_cont(p[b]));
            }
        }
        assert(p[a] != 0x2a);
        if p[a] == 0x2f {
            lemma_run_literal(p, h, a, x, b, 1);
            lemma_steps_from_slash(h, x, x2);
        } else {
            let (nx, nx2) = if p[a] == 0x3f {
                (x + char_len(h, x), x2 + char_len(h, x2))
            } else {
                assert forall|j: int| a <= j < a + w implies p[j] != 0x3f by {
                    if j > a {
                        assert(is_cont(p[j]));
                    }
                }
                lemma_run_literal(p, h, a, x, b, w);
                lemma_run_literal(p, h, a, x2, b, w);
                assert(h[x] == p[a + (x - x)]);
                assert(h[x2] == p[a + (x2 - x2)]);
                assert(char_len(h, x) == w);
                assert(char_len(h, x2) == w);
                (x + w, x2 + w)
            };
            // the first step from `x` reaches `nx`, then steps on to `x2`, then one more
            assert(steps_to(h, nx, x2));
            assert(steps_to(h, nx2, nx2));
            assert(steps_to(h, x2, nx2));
            lemma_steps_trans(h, nx, x2, nx2);
            lemma_shift(p, h, a + w, b, nx, nx2);
            assert forall|j: int| a <= j < a + w implies p[j] != 0x2f by {
                if j > a {
                    assert(is_cont(p[j]));
                }
            }
            if exists|j: int| a <= j < b && p[j] == 0x2f {
                let j = choose|j: int| a <= j < b && p[j] == 0x2f;
                assert(a + w <= j < b && p[j] == 0x2f);
            }
        }
    }
}

/// A match from `x` of a pattern part without `/**/` passes exactly the `/` that the
/// part spells out, and reaches the end of the part somewhere.
proof fn lemma_reach(p: Seq<u8>, h: Seq<u8>, dir: bool, a: int, b: int, x: int) -> (y: int)
    requires
        valid_utf8(h),
        0 <= a <= b <= p.len(),
        no_any_dirs(p, a, b),
        0 <= x <= h.len(),
        glob_at(p, h, dir, a, x),
    ensures
        x <= y <= h.len(),
        glob_at(p, h, dir, b, y),
        slashes(h, 0, y) == slashes(h, 0, x) + slashes(p, a, b),
    decreases b - a,
{
    if a == b {
        x
    } else {
        lemma_slashes_front(p, a, b);
        assert(!any_dirs_at(p, a));
        if p[a] == 0x2a {
            let y1 = lemma_star_witness(p, h, dir, a + 1, x);
            lemma_steps_bounds(h, x, y1);
            lemma_steps_slashes(h, x, y1);
            lemma_reach(p, h, dir, a + 1, b, y1)
        } else if p[a] == 0x3f {
            lemma_char_len_no_slash(h, x);
            lemma_reach(p, h, dir, a + 1, b, x + char_len(h, x))
        } else {
            assert(slashes(h, 0, x + 1) == slashes(h, 0, x) + if h[x] == 0x2f {
                1int
            } else {
                0int
            });
            lemma_reach(p, h, dir, a + 1, b, x + 1)
        }
    }
}

/// The alternatives left to a `*` that is the newer backtracking point: matches that
/// cover more characters than it covers now.
pub open spec fn alt_star(p: Seq<u8>, h: Seq<u8>, dir: bool, set: bool, sp: int, sh: int) -> bool {
    set && char_len(h, sh) > 0 && glob_star(p, h, dir, sp, sh + char_len(h, sh))
}

/// The alternatives left to a `/**/`: matches that cover more path components.
pub open spec fn alt_dirs(p: Seq<u8>, h: Seq<u8>, dir: bool, set: bool, tp: int, th: int) -> bool {
    set && glob_dirs_after(p, h, dir, tp, th)
}

/// Reaching the next `*` or `/**/` after a `*` (through a plain segment) leaves
/// nothing to the older `*`: any match that covers more with it also matches from here.
proof fn lemma_star_alternatives(
    p: Seq<u8>,
    h: Seq<u8>,
    dir: bool,
    sp: int,
    sh: int,
    pi: int,
    hi: int,
)
    requires
        valid_utf8(p),
        1 <= sp <= pi < p.len(),
        p[sp - 1] == 0x2a,
        p[pi] == 0x2a || (any_dirs_at(p, pi) && 0 <= hi < h.len() && h[hi] == 0x2f),
        plain_segment(p, sp, pi),
        0 <= sh <= h.len(),
        0 <= hi <= h.len(),
        run(p, h, sp, sh, pi) == hi,
        alt_star(p, h, dir, true, sp, sh),
    ensures
        glob_at(p, h, dir, pi, hi),
{
    let e = sh + char_len(h, sh);
    let y = lemma_star_witness(p, h, dir, sp, e);
    assert(steps_to(h, e, e));
    assert(steps_to(h, sh, e));
    lemma_steps_trans(h, sh, e, y);
    lemma_steps_bounds(h, sh, y);
    lemma_run_glob(p, h, dir, sp, pi, sh);
    lemma_run_glob(p, h, dir, sp, pi, y);
    let y2 = run(p, h, sp, y, pi);
    lemma_utf8_char(p, sp - 1);
    lemma_shift(p, h, sp, pi, sh, y);
    if p[pi] == 0x2a {
        let z = lemma_star_witness(p, h, dir, pi + 1, y2);
        lemma_steps_trans(h, hi, y2, z);
        lemma_star_from_steps(p, h, dir, pi + 1, hi, z);
    } else {
        lemma_steps_from_slash(h, hi, y2);
    }
}

/// Reaching a `/**/` leaves nothing to the older `/**/`: a match that covers more
/// components with it reaches this `/**/` at a later `/`, which the new one covers.
proof fn lemma_dirs_alternatives(
    p: Seq<u8>,
    h: Seq<u8>,
    dir: bool,
    tp: int,
    th: int,
    pi: int,
    hi: int,
)
    requires
        valid_utf8(h),
        0 <= tp <= pi,
        any_dirs_at(p, pi),
        no_any_dirs(p, tp, pi),
        0 <= th <= hi < h.len(),
        h[hi] == 0x2f,
        slashes(h, 0, hi) == slashes(h, 0, th) + slashes(p, tp, pi),
        glob_dirs_after(p, h, dir, tp, th),
    ensures
        glob_at(p, h, dir, pi, hi),
{
    let k = lemma_dirs_after_witness(p, h, dir, tp, th);
    let y = lemma_reach(p, h, dir, tp, pi, k + 1);
    lemma_slashes_mono(h, th, k);
    assert(slashes(h, 0, k + 1) == slashes(h, 0, k) + 1);
    if y <= hi {
        lemma_slashes_mono(h, y, hi);
    }
    assert(hi < y);
    assert(h[y] == 0x2f && glob_dirs(p, h, dir, pi + 4, y + 1));
    lemma_dirs_after_from(p, h, dir, pi + 4, hi + 1, y);
    assert(glob_dirs(p, h, dir, pi + 4, hi + 1));
}

spec fn lex_lt4(a1: int, a2: int, a3: int, a4: int, b1: int, b2: int, b3: int, b4: int) -> bool {
    a1 < b1 || (a1 == b1 && (a2 < b2 || (a2 == b2 && (a3 < b3 || (a3 == b3 && a4 < b4)))))
}

/// Extending a `/**/` to just after the next `/` (the first at or after `x`, at `k`)
/// is one of the ways that `glob_dirs_after` allows.
proof fn lemma_dirs_after_scan(p: Seq<u8>, h: Seq<u8>, dir: bool, pi: int, x: int, k: int)
    requires
        0 <= x <= k < h.len(),
        h[k] == 0x2f,
        forall|j: int| x <= j < k ==> h[j] != 0x2f,
    ensures
        glob_dirs(p, h, dir, pi, k + 1) ==> glob_dirs_after(p, h, dir, pi, x),
    decreases k - x,
{
    if x < k {
        lemma_dirs_after_scan(p, h, dir, pi, x + 1, k);
    }
}

/// One of the four matching relations: 0 for `glob_at`, 1 for `glob_star`, 2 for
/// `glob_dirs`, 3 for `glob_dirs_after`.
spec fn glob_fn(f: int, p: Seq<u8>, h: Seq<u8>, dir: bool, pi: int, hi: int) -> bool {
    if f == 0 {
        glob_at(p, h, dir, pi, hi)
    } else if f == 1 {
        glob_star(p, h, dir, pi, hi)
    } else if f == 2 {
        glob_dirs(p, h, dir, pi, hi)
    } else {
        glob_dirs_after(p, h, dir, pi, hi)
    }
}

spec fn glob_rank(f: int) -> int {
    if f == 0 {
        0
    } else if f == 2 {
        2
    } else {
        1
    }
}

/// The path cut before its `/` at `k` matches, without directory mode, from `hi` on.
spec fn dir_witness(f: int, p: Seq<u8>, h: Seq<u8>, pi: int, hi: int, k: int) -> bool {
    hi <= k < h.len() && h[k] == 0x2f && glob_fn(f, p, h.subrange(0, k), false, pi, hi)
}

/// In valid UTF-8, cutting the path before a `/` changes no step over a character
/// that starts before the cut, and leaves none to take at or after it.
proof fn lemma_char_len_cut(h: Seq<u8>, k: int, x: int)
    requires
        valid_utf8(h),
        0 <= k < h.len(),
        h[k] == 0x2f,
        0 <= x,
    ensures
        x < k ==> char_len(h.subrange(0, k), x) == char_len(h, x),
        x >= k ==> char_len(h.subrange(0, k), x) == 0,
{
    let c = h.subrange(0, k);
    if x < k {
        assert(c[x] == h[x]);
        if char_len(h, x) > 0 {
            lemma_char_len_no_slash(h, x);
            assert(x + char_len(h, x) <= k);
        }
    }
}

/// Directory mode matches exactly where matching without it matches the path cut
/// before one of its `/`s, for each of the four relations, from any positions on.
proof fn lemma_dir_cut(f: int, p: Seq<u8>, h: Seq<u8>, pi: int, hi: int)
    requires
        valid_utf8(h),
        0 <= f <= 3,
        0 <= pi <= p.len(),
        0 <= hi <= h.len(),
    ensures
        glob_fn(f, p, h, true, pi, hi) == exists|k: int| #[trigger] dir_witness(f, p, h, pi, hi, k),
    decreases p.len() - pi, h.len() - hi, glob_rank(f),
{
    let n = h.len() as int;
    if f == 0 {
        if pi >= p.len() {
            if glob_fn(f, p, h, true, pi, hi) {
                assert(dir_witness(f, p, h, pi, hi, hi));
            }
        } else if any_dirs_at(p, pi) {
            if hi + 1 <= n {
                lemma_dir_cut(2, p, h, pi + 4, hi + 1);
            }
            if glob_fn(f, p, h, true, pi, hi) {
                let k = choose|k: int| #[trigger] dir_witness(2, p, h, pi + 4, hi + 1, k);
                assert(h.subrange(0, k)[hi] == h[hi]);
                assert(dir_witness(f, p, h, pi, hi, k));
            }
            if exists|k: int| #[trigger] dir_witness(f, p, h, pi, hi, k) {
                let k = choose|k: int| #[trigger] dir_witness(f, p, h, pi, hi, k);
                assert(h.subrange(0, k)[hi] == h[hi]);
                assert(dir_witness(2, p, h, pi + 4, hi + 1, k));
            }
        } else if p[pi] == 0x2a {
            lemma_dir_cut(1, p, h, pi + 1, hi);
            if glob_fn(f, p, h, true, pi, hi) {
                let k = choose|k: int| #[trigger] dir_witness(1, p, h, pi + 1, hi, k);
                assert(dir_witness(f, p, h, pi, hi, k));
            }
            if exists|k: int| #[trigger] dir_witness(f, p, h, pi, hi, k) {
                let k = choose|k: int| #[trigger] dir_witness(f, p, h, pi, hi, k);
                assert(dir_witness(1, p, h, pi + 1, hi, k));
            }
        } else if p[pi] == 0x3f {
            let c = char_len(h, hi);
            if c > 0 {
                lemma_dir_cut(0, p, h, pi + 1, hi + c);
            }
            if glob_fn(f, p, h, true, pi, hi) {
                let k = choose|k: int| #[trigger] dir_witness(0, p, h, pi + 1, hi + c, k);
                lemma_char_len_cut(h, k, hi);
                assert(dir_witness(f, p, h, pi, hi, k));
            }
            if exists|k: int| #[trigger] dir_witness(f, p, h, pi, hi, k) {
                let k = choose|k: int| #[trigger] dir_witness(f, p, h, pi, hi, k);
                lemma_char_len_cut(h, k, hi);
                assert(dir_witness(0, p, h, pi + 1, hi + c, k));
            }
        } else {
            if hi + 1 <= n {
                lemma_dir_cut(0, p, h, pi + 1, hi + 1);
            }
            if glob_fn(f, p, h, true, pi, hi) {
                let k = choose|k: int| #[trigger] dir_witness(0, p, h, pi + 1, hi + 1, k);
                assert(h.subrange(0, k)[hi] == h[hi]);
                assert(dir_witness(f, p, h, pi, hi, k));
            }
            if exists|k: int| #[trigger] dir_witness(f, p, h, pi, hi, k) {
                let k = choose|k: int| #[trigger] dir_witness(f, p, h, pi, hi, k);
                assert(h.subrange(0, k)[hi] == h[hi]);
                assert(dir_witness(0, p, h, pi + 1, hi + 1, k));
            }
        }
    } else if f == 1 {
        lemma_dir_cut(0, p, h, pi, hi);
        let c = char_len(h, hi);
        if c > 0 {
            lemma_dir_cut(1, p, h, pi, hi + c);
        }
        if glob_fn(f, p, h, true, pi, hi) {
            if glob_at(p, h, true, pi, hi) {
                let k = choose|k: int| #[trigger] dir_witness(0, p, h, pi, hi, k);
                assert(dir_witness(f, p, h, pi, hi, k));
            } else {
                let k = choose|k: int| #[trigger] dir_witness(1, p, h, pi, hi + c, k);
                lemma_char_len_cut(h, k, hi);
                assert(dir_witness(f, p, h, pi, hi, k));
            }
        }
        if exists|k: int| #[trigger] dir_witness(f, p, h, pi, hi, k) {
            let k = choose|k: int| #[trigger] dir_witness(f, p, h, pi, hi, k);
            lemma_char_len_cut(h, k, hi);
            if glob_at(p, h.subrange(0, k), false, pi, hi) {
                assert(dir_witness(0, p, h, pi, hi, k));
            } else {
                assert(dir_witness(1, p, h, pi, hi + c, k));
            }
        }
    } else if f == 2 {
        lemma_dir_cut(0, p, h, pi, hi);
        lemma_dir_cut(3, p, h, pi, hi);
        if glob_fn(f, p, h, true, pi, hi) {
            if glob_at(p, h, true, pi, hi) {
                let k = choose|k: int| #[trigger] dir_witness(0, p, h, pi, hi, k);
                assert(dir_witness(f, p, h, pi, hi, k));
            } else {
                let k = choose|k: int| #[trigger] dir_witness(3, p, h, pi, hi, k);
                assert(dir_witness(f, p, h, pi, hi, k));
            }
        }
        if exists|k: int| #[trigger] dir_witness(f, p, h, pi, hi, k) {
            let k = choose|k: int| #[trigger] dir_witness(f, p, h, pi, hi, k);
            if glob_at(p, h.subrange(0, k), false, pi, hi) {
                assert(dir_witness(0, p, h, pi, hi, k));
            } else {
                assert(dir_witness(3, p, h, pi, hi, k));
            }
        }
    } else {
        if hi < n {
            lemma_dir_cut(2, p, h, pi, hi + 1);
            lemma_dir_cut(3, p, h, pi, hi + 1);
        }
        if glob_fn(f, p, h, true, pi, hi) {
            let g = if h[hi] == 0x2f { 2int } else { 3int };
            let k = choose|k: int| #[trigger] dir_witness(g, p, h, pi, hi + 1, k);
            assert(h.subrange(0, k)[hi] == h[hi]);
            assert(dir_witness(f, p, h, pi, hi, k));
        }
        if exists|k: int| #[trigger] dir_witness(f, p, h, pi, hi, k) {
            let k = choose|k: int| #[trigger] dir_witness(f, p, h, pi, hi, k);
            assert(h.subrange(0, k)[hi] == h[hi]);
            let g = if h[hi] == 0x2f { 2int } else { 3int };
            assert(dir_witness(g, p, h, pi, hi + 1, k));
        }
    }
}

/// In valid UTF-8, directory mode matches exactly the directory prefixes of the path:
/// the pattern matches the path in directory mode if and only if it matches all of the
/// path up to one of its `/`s.
pub proof fn lemma_directory_prefixes(p: Seq<u8>, h: Seq<u8>)
    requires
        valid_utf8(h),
    ensures
        glob_match_all(p, h, true) == exists|k: int|
            0 <= k < h.len() && h[k] == 0x2f && #[trigger] glob_match_all(p, h.subrange(0, k), false),
{
    lemma_dir_cut(0, p, h, 0, 0);
    if glob_match_all(p, h, true) {
        let k = choose|k: int| #[trigger] dir_witness(0, p, h, 0, 0, k);
        assert(glob_match_all(p, h.subrange(0, k), false));
    }
    if exists|k: int|
        0 <= k < h.len() && h[k] == 0x2f && #[trigger] glob_match_all(p, h.subrange(0, k), false) {
        let k = choose|k: int|
            0 <= k < h.len() && h[k] == 0x2f && #[trigger] glob_match_all(p, h.subrange(0, k), false);
        assert(dir_witness(0, p, h, 0, 0, k));
    }
}

/// The pattern holds no wildcard: no `*` and no `?`.
pub open spec fn literal_pattern(p: Seq<u8>) -> bool {
    forall|i: int| 0 <= i < p.len() ==> #[trigger] p[i] != 0x2a && p[i] != 0x3f
}

/// A pattern without wildcards, from position `i` on, against the path from the same
/// position: the bytes must agree up to the end of the pattern, and then the path must
/// end (or, in directory mode, go on with a `/`).
proof fn lemma_literal_at(p: Seq<u8>, h: Seq<u8>, dir: bool, i: int)
    requires
        literal_pattern(p),
        0 <= i <= p.len(),
        i <= h.len(),
    ensures
        glob_at(p, h, dir, i, i) == ((if dir {
            p.len() < h.len() && h[p.len() as int] == 0x2f
        } else {
            h.len() == p.len()
        }) && h.subrange(i, p.len() as int) == p.subrange(i, p.len() as int)),
    decreases p.len() - i,
{
    let n = p.len() as int;
    if i < n {
        assert(p[i] != 0x2a && p[i] != 0x3f);
        if i + 4 <= n {
            assert(p[i + 1] != 0x2a);
        }
        assert(!any_dirs_at(p, i));
        if i < h.len() {
            lemma_literal_at(p, h, dir, i + 1);
            assert(glob_at(p, h, dir, i, i) == (h[i] == p[i] && glob_at(p, h, dir, i + 1, i + 1)));
            if n <= h.len() {
                assert(h.subrange(i, n) == p.subrange(i, n) <==> (h[i] == p[i] && h.subrange(
                    i + 1,
                    n,
                ) == p.subrange(i + 1, n))) by {
                    if h.subrange(i, n) == p.subrange(i, n) {
                        assert(h.subrange(i, n)[0] == h[i]);
                        assert(h.subrange(i + 1, n) =~= h.subrange(i, n).drop_first());
                        assert(p.subrange(i + 1, n) =~= p.subrange(i, n).drop_first());
                    }
                    if h[i] == p[i] && h.subrange(i + 1, n) == p.subrange(i + 1, n) {
                        assert(h.subrange(i, n) =~= p.subrange(i, n)) by {
                            assert forall|j: int| 0 <= j < n - i implies h.subrange(i, n)[j]
                                == p.subrange(i, n)[j] by {
                                if j > 0 {
                                    assert(h.subrange(i + 1, n)[j - 1] == h[i + j]);
                                    assert(p.subrange(i + 1, n)[j - 1] == p[i + j]);
                                }
                            }
                        }
                    }
                }
            }
        }
    } else {
        assert(h.subrange(i, n) =~= p.subrange(i, n));
    }
}

/// A pattern without wildcards matches exactly the path made of the same bytes, or, in
/// directory mode, exactly the paths that go on from those bytes with a `/`; this holds
/// of all byte strings, valid UTF-8 or not.
pub proof fn lemma_literal_match(p: Seq<u8>, h: Seq<u8>)
    requires
        literal_pattern(p),
    ensures
        glob_match_all(p, h, false) == (h == p),
        glob_match_all(p, h, true) == (p.len() < h.len() && h.subrange(0, p.len() as int) == p
            && h[p.len() as int] == 0x2f),
{
    lemma_literal_at(p, h, false, 0);
    lemma_literal_at(p, h, true, 0);
    assert(p.subrange(0, p.len() as int) =~= p);
    if h.len() == p.len() {
        assert(h.subrange(0, p.len() as int) =~= h);
    }
}

/// Return true if the glob pattern matches all of the path.
///
/// If `directory` is true then the pattern instead matches a directory prefix
/// of the path: for valid UTF-8, exactly when it matches all of the path up to one of
/// its `/`s.
fn match_all(pattern: &[u8], haystack: &[u8], directory: bool) -> (res: bool)
    ensures
        res ==> glob_match_all(pattern@, haystack@, directory),
        (valid_utf8(pattern@) && valid_utf8(haystack@) || literal_pattern(pattern@))
            && glob_match_all(pattern@, haystack@, directory) ==> res,
        valid_utf8(pattern@) && valid_utf8(haystack@) && directory ==> (res <==> exists|k: int|
            0 <= k < haystack@.len() && haystack@[k] == 0x2f && #[trigger] glob_match_all(
                pattern@,
                haystack@.subrange(0, k),
                false,
            )),
{
    let res = match_search(pattern, haystack, directory);
    proof {
        if valid_utf8(pattern@) && valid_utf8(haystack@) && directory {
            lemma_directory_prefixes(pattern@, haystack@);
        }
    }
    res
}

/// The backtracking search of `match_all`: over the most recent `*` and the most recent
/// `/**/` only; for valid UTF-8 that misses no match, nor for a pattern without
/// wildcards, whatever the bytes.
fn match_search(pattern: &[u8], haystack: &[u8], directory: bool) -> (res: bool)
    ensures
        res ==> glob_match_all(pattern@, haystack@, directory),
        (valid_utf8(pattern@) && valid_utf8(haystack@) || literal_pattern(pattern@))
            && glob_match_all(pattern@, haystack@, directory) ==> res,
{
    let ghost p = pattern@;
    let ghost h = haystack@;
    let ghost dir = directory;
    let ghost target = glob_match_all(p, h, directory);
    let ghost valid = valid_utf8(p) && valid_utf8(h);
    let ghost lit = literal_pattern(p);
    let plen = pattern.len();
    let hlen = haystack.len();
    let mut pi: usize = 0;
    let mut hi: usize = 0;
    // The most recent '*' pattern.
    let mut star_set = false;
    let mut star_p: usize = 0;
    let mut star_h: usize = 0;
    // The most recent '/**/' pattern.
    let mut dirs_set = false;
    let mut dirs_p: usize = 0;
    let mut dirs_h: usize = 0;
    // Whether '*' is more recent than '/**/'.
    let mut star_inner = false;
    loop
        invariant
            p == pattern@,
            h == haystack@,
            dir == directory,
            plen == p.len(),
            hlen == h.len(),
            target == glob_match_all(p, h, directory),
            valid == (valid_utf8(p) && valid_utf8(h)),
            lit == literal_pattern(p),
            lit ==> !star_set && !dirs_set,
            lit && target ==> glob_at(p, h, dir, pi as int, hi as int),
            pi <= plen,
            hi <= hlen,
            star_p <= plen,
            star_h <= hlen,
            dirs_p <= plen,
            dirs_h <= hlen,
            star_inner && !star_set ==> !dirs_set,
            !star_inner && !dirs_set ==> !star_set,
            star_set && star_inner ==> star_p <= pi && star_h <= hi,
            dirs_set ==> dirs_p <= pi && dirs_h <= hi,
            star_set && dirs_set && star_inner ==> dirs_h <= star_h && dirs_p < star_p,
            star_set && dirs_set && !star_inner ==> star_h < dirs_h,
            glob_at(p, h, dir, pi as int, hi as int) ==> target,
            star_set ==> (glob_star(p, h, dir, star_p as int, star_h as int) ==> target),
            dirs_set ==> (glob_dirs(p, h, dir, dirs_p as int, dirs_h as int) ==> target),
            // where the points stand in the pattern
            star_set ==> 1 <= star_p && p[star_p - 1] == 0x2a,
            star_set && star_inner ==> plain_segment(p, star_p as int, pi as int) && run(
                p,
                h,
                star_p as int,
                star_h as int,
                pi as int,
            ) == hi,
            dirs_set ==> no_any_dirs(p, dirs_p as int, pi as int),
            valid && dirs_set ==> slashes(h, 0, hi as int) == slashes(h, 0, dirs_h as int)
                + slashes(p, dirs_p as int, pi as int),
            valid && star_set && dirs_set && star_inner ==> slashes(h, 0, star_h as int)
                == slashes(h, 0, dirs_h as int) + slashes(p, dirs_p as int, star_p as int),
            // no match is lost
            valid && target ==> glob_at(p, h, dir, pi as int, hi as int) || alt_star(
                p,
                h,
                dir,
                star_set,
                star_p as int,
                star_h as int,
            ) || alt_dirs(p, h, dir, dirs_set, dirs_p as int, dirs_h as int),
            valid && !star_inner && star_set ==> (alt_star(
                p,
                h,
                dir,
                star_set,
                star_p as int,
                star_h as int,
            ) ==> glob_at(p, h, dir, pi as int, hi as int) || alt_dirs(
                p,
                h,
                dir,
                dirs_set,
                dirs_p as int,
                dirs_h as int,
            )),
        decreases
            older_pos(hlen as int, star_set, star_h as int, dirs_set, dirs_h as int, star_inner),
            older_pat(plen as int, star_set, star_p as int, dirs_set, dirs_p as int, star_inner),
            newer_pos(hlen as int, star_set, star_h as int, dirs_set, dirs_h as int, star_inner),
            newer_pat(plen as int, star_set, star_p as int, dirs_set, dirs_p as int, star_inner),
            plen - pi,
    {
        if plen - pi >= 4 && pattern[pi] == 0x2f && pattern[pi + 1] == 0x2a && pattern[pi + 2]
            == 0x2a && pattern[pi + 3] == 0x2f {
            assert(any_dirs_at(p, pi as int));
            if hi < hlen && haystack[hi] == 0x2f {
                proof {
                    if valid {
                        if dirs_set && alt_dirs(p, h, dir, dirs_set, dirs_p as int, dirs_h as int) {
                            lemma_dirs_alternatives(
                                p,
                                h,
                                dir,
                                dirs_p as int,
                                dirs_h as int,
                                pi as int,
                                hi as int,
                            );
                        }
                        if star_set && star_inner && alt_star(
                            p,
                            h,
                            dir,
                            star_set,
                            star_p as int,
                            star_h as int,
                        ) {
                            lemma_star_alternatives(
                                p,
                                h,
                                dir,
                                star_p as int,
                                star_h as int,
                                pi as int,
                                hi as int,
                            );
                        }
                    }
                }
                assert(glob_dirs(p, h, dir, pi + 4, hi + 1) == glob_at(
                    p,
                    h,
                    dir,
                    pi as int,
                    hi as int,
                ));
                pi = pi + 4;
                hi = hi + 1;
                dirs_set = true;
                dirs_p = pi;
                dirs_h = hi;
                star_inner = false;
                continue ;
            }
        } else if pi < plen && pattern[pi] == 0x2a {
            proof {
                if valid && star_set && star_inner && alt_star(
                    p,
                    h,
                    dir,
                    star_set,
                    star_p as int,
                    star_h as int,
                ) {
                    lemma_star_alternatives(
                        p,
                        h,
                        dir,
                        star_p as int,
                        star_h as int,
                        pi as int,
                        hi as int,
                    );
                }
                if dirs_set {
                    assert(slashes(p, dirs_p as int, pi + 1) == slashes(p, dirs_p as int, pi as int));
                }
            }
            assert(glob_star(p, h, dir, pi + 1, hi as int) == glob_at(
                p,
                h,
                dir,
                pi as int,
                hi as int,
            ));
            pi = pi + 1;
            star_set = true;
            star_p = pi;
            star_h = hi;
            star_inner = true;
            continue ;
        } else if pi < plen && pattern[pi] == 0x3f {
            assert(char_len(haystack@.subrange(hi as int, hlen as int), 0) == char_len(
                h,
                hi as int,
            ));
            if let Some(rest) = skip_char(&haystack[hi..hlen]) {
                proof {
                    if star_set && star_inner {
                        lemma_run_snoc(p, h, star_p as int, star_h as int, pi as int);
                    }
                    if valid {
                        lemma_char_len_no_slash(h, hi as int);
                    }
                    if dirs_set {
                        assert(slashes(p, dirs_p as int, pi + 1) == slashes(
                            p,
                            dirs_p as int,
                            pi as int,
                        ));
                    }
                }
                hi = hlen - rest.len();
                pi = pi + 1;
                continue ;
            }
        } else if pi < plen {
            if hi < hlen && pattern[pi] == haystack[hi] {
                proof {
                    if star_set && star_inner {
                        lemma_run_snoc(p, h, star_p as int, star_h as int, pi as int);
                    }
                    assert(slashes(h, 0, hi + 1) == slashes(h, 0, hi as int) + if h[hi as int]
                        == 0x2f {
                        1int
                    } else {
                        0int
                    });
                    if dirs_set {
                        assert(slashes(p, dirs_p as int, pi + 1) == slashes(
                            p,
                            dirs_p as int,
                            pi as int,
                        ) + if p[pi as int] == 0x2f {
                            1int
                        } else {
                            0int
                        });
                    }
                }
                pi = pi + 1;
                hi = hi + 1;
                continue ;
            }
        } else {
            if directory {
                // Match everything below the directory.
                if hi < hlen && haystack[hi] == 0x2f {
                    return true;
                }
            } else {
                if hi == hlen {
                    return true;
                }
            }
        }
        // Nothing matches at (pi, hi).
        assert(!glob_at(p, h, dir, pi as int, hi as int));
        // Backtrack by extending the most recent wildcard.
        let ghost e_star_set = star_set;
        let ghost e_star_h: int = star_h as int;
        let ghost e_star_p: int = star_p as int;
        let ghost e_dirs_set = dirs_set;
        let ghost e_dirs_h: int = dirs_h as int;
        let ghost e_dirs_p: int = dirs_p as int;
        let ghost e_inner = star_inner;
        loop
            invariant_except_break
                star_set ==> star_h == e_star_h && star_p == e_star_p,
                dirs_set ==> dirs_h == e_dirs_h && dirs_p == e_dirs_p,
                star_inner == e_inner ==> (star_set == e_star_set && dirs_set == e_dirs_set) || (
                !star_set && !dirs_set),
                star_inner != e_inner && e_inner ==> !star_set && dirs_set == e_dirs_set,
                star_inner != e_inner && !e_inner ==> !dirs_set && star_set == e_star_set,
                valid && target ==> alt_star(p, h, dir, star_set, star_p as int, star_h as int)
                    || alt_dirs(p, h, dir, dirs_set, dirs_p as int, dirs_h as int),
                valid && !star_inner && star_set ==> (alt_star(
                    p,
                    h,
                    dir,
                    star_set,
                    star_p as int,
                    star_h as int,
                ) ==> alt_dirs(p, h, dir, dirs_set, dirs_p as int, dirs_h as int)),
            invariant
                p == pattern@,
                h == haystack@,
                dir == directory,
                plen == p.len(),
                hlen == h.len(),
                target == glob_match_all(p, h, directory),
                valid == (valid_utf8(p) && valid_utf8(h)),
                lit == literal_pattern(p),
                lit ==> !star_set && !dirs_set && !target,
                pi <= plen,
                hi <= hlen,
                star_p <= plen,
                star_h <= hlen,
                dirs_p <= plen,
                dirs_h <= hlen,
                star_inner && !star_set ==> !dirs_set,
                !star_inner && !dirs_set ==> !star_set,
                star_set ==> (glob_star(p, h, dir, star_p as int, star_h as int) ==> target),
                dirs_set ==> (glob_dirs(p, h, dir, dirs_p as int, dirs_h as int) ==> target),
                e_star_set && e_dirs_set && e_inner ==> e_dirs_h <= e_star_h && e_dirs_p
                    < e_star_p,
                e_star_set && e_dirs_set && !e_inner ==> e_star_h < e_dirs_h,
                e_inner && !e_star_set ==> !e_dirs_set,
                !e_inner && !e_dirs_set ==> !e_star_set,
                star_set ==> 1 <= star_p && p[star_p - 1] == 0x2a,
                star_set && dirs_set && star_inner ==> no_any_dirs(
                    p,
                    dirs_p as int,
                    star_p as int,
                ),
                valid && star_set && dirs_set && star_inner ==> slashes(h, 0, star_h as int)
                    == slashes(h, 0, dirs_h as int) + slashes(p, dirs_p as int, star_p as int),
            ensures
                glob_at(p, h, dir, pi as int, hi as int) ==> target,
                !lit,
                star_set && star_inner ==> star_p <= pi && star_h <= hi,
                dirs_set ==> dirs_p <= pi && dirs_h <= hi,
                star_set && dirs_set && star_inner ==> dirs_h <= star_h && dirs_p < star_p,
                star_set && dirs_set && !star_inner ==> star_h < dirs_h,
                star_set && star_inner ==> plain_segment(p, star_p as int, pi as int) && run(
                    p,
                    h,
                    star_p as int,
                    star_h as int,
                    pi as int,
                ) == hi,
                dirs_set ==> no_any_dirs(p, dirs_p as int, pi as int),
                valid && dirs_set ==> slashes(h, 0, hi as int) == slashes(h, 0, dirs_h as int)
                    + slashes(p, dirs_p as int, pi as int),
                valid && star_set && dirs_set && star_inner ==> slashes(h, 0, star_h as int)
                    == slashes(h, 0, dirs_h as int) + slashes(p, dirs_p as int, star_p as int),
                valid && target ==> glob_at(p, h, dir, pi as int, hi as int) || alt_star(
                    p,
                    h,
                    dir,
                    star_set,
                    star_p as int,
                    star_h as int,
                ) || alt_dirs(p, h, dir, dirs_set, dirs_p as int, dirs_h as int),
                valid && !star_inner && star_set ==> (alt_star(
                    p,
                    h,
                    dir,
                    star_set,
                    star_p as int,
                    star_h as int,
                ) ==> glob_at(p, h, dir, pi as int, hi as int) || alt_dirs(
                    p,
                    h,
                    dir,
                    dirs_set,
                    dirs_p as int,
                    dirs_h as int,
                )),
                lex_lt4(
                    older_pos(hlen as int, star_set, star_h as int, dirs_set, dirs_h as int, star_inner),
                    older_pat(plen as int, star_set, star_p as int, dirs_set, dirs_p as int, star_inner),
                    newer_pos(hlen as int, star_set, star_h as int, dirs_set, dirs_h as int, star_inner),
                    newer_pat(plen as int, star_set, star_p as int, dirs_set, dirs_p as int, star_inner),
                    older_pos(hlen as int, e_star_set, e_star_h, e_dirs_set, e_dirs_h, e_inner),
                    older_pat(plen as int, e_star_set, e_star_p, e_dirs_set, e_dirs_p, e_inner),
                    newer_pos(hlen as int, e_star_set, e_star_h, e_dirs_set, e_dirs_h, e_inner),
                    newer_pat(plen as int, e_star_set, e_star_p, e_dirs_set, e_dirs_p, e_inner),
                ),
            decreases (star_set as int) + (dirs_set as int),
        {
            if star_inner {
                if !star_set {
                    return false;
                }
                assert(char_len(haystack@.subrange(star_h as int, hlen as int), 0) == char_len(
                    h,
                    star_h as int,
                ));
                if let Some(rest) = skip_char(&haystack[star_h..hlen]) {
                    // Extend the `*` by one character, but not past a `/`.
                    let ghost old_h = star_h as int;
                    proof {
                        if valid {
                            lemma_char_len_no_slash(h, old_h);
                        }
                    }
                    star_h = hlen - rest.len();
                    assert(glob_star(p, h, dir, star_p as int, star_h as int) ==> glob_star(
                        p,
                        h,
                        dir,
                        star_p as int,
                        old_h,
                    ));
                    pi = star_p;
                    hi = star_h;
                    assert(glob_star(p, h, dir, star_p as int, star_h as int) == (glob_at(
                        p,
                        h,
                        dir,
                        pi as int,
                        hi as int,
                    ) || alt_star(p, h, dir, true, star_p as int, star_h as int)));
                    break ;
                }
                star_set = false;
                star_inner = false;
            } else {
                if !dirs_set {
                    return false;
                }
                // Extend the `/**/` by one complete path component.
                let mut k = dirs_h;
                while k < hlen && haystack[k] != 0x2f
                    invariant
                        dirs_h <= k <= hlen,
                        hlen == h.len(),
                        h == haystack@,
                        forall|j: int| dirs_h <= j < k ==> h[j] != 0x2f,
                    decreases hlen - k,
                {
                    k = k + 1;
                }
                if k < hlen {
                    proof {
                        lemma_dirs_after_first(p, h, dir, dirs_p as int, dirs_h as int, k as int);
                    }
                    dirs_h = k + 1;
                    pi = dirs_p;
                    hi = dirs_h;
                    assert(glob_dirs(p, h, dir, pi as int, hi as int) == (glob_at(
                        p,
                        h,
                        dir,
                        pi as int,
                        hi as int,
                    ) || alt_dirs(p, h, dir, true, dirs_p as int, dirs_h as int)));
                    break ;
                }
                proof {
                    lemma_dirs_after_none(p, h, dir, dirs_p as int, dirs_h as int);
                }
                dirs_set = false;
                star_inner = true;
            }
        }
    }
}


/// Cutting valid UTF-8 at a position after an ASCII byte leaves valid UTF-8 on both sides.
proof fn lemma_split_after_ascii(s: Seq<u8>, i: int)
    requires
        valid_utf8(s),
        1 <= i <= s.len(),
        s[i - 1] <= 0x7f,
    ensures
        valid_utf8(s.subrange(0, i)),
        valid_utf8(s.subrange(i, s.len() as int)),
{
    lemma_utf8_char(s, i - 1);
    if i == s.len() {
        is_char_boundary_start_end_of_seq(s);
    } else {
        is_char_boundary_iff_not_is_continuation_byte(s, i);
    }
    valid_utf8_split(s, i);
}

/// Return true if the glob pattern matches a path.
///
/// - `?` matches any single character except `/`
/// - `*` matches any sequence of characters except `/`
/// - `/**/` matches zero or more complete path components
/// - all other characters match themselves
///
/// The pattern must match complete components of the path,
/// but it may start matching at any path component (implicit leading `**/`),
/// and optionally finish matching at a trailing `/` (implicit trailing `**`).
pub fn matches(pattern: &str, path: &str) -> (res: bool)
    ensures
        res == glob_matches(pattern.spec_bytes(), path.spec_bytes()),
{
    let ghost pb = pattern.spec_bytes();
    let ghost hb = path.spec_bytes();
    proof {
        encode_utf8_valid_utf8(pattern@);
        encode_utf8_valid_utf8(path@);
    }
    let path_bytes = path.as_bytes();
    let pattern_bytes = pattern.as_bytes();
    let plen = pattern_bytes.len();
    // Check if pattern finishes with a '/'. Also ignore redundant trailing `**`.
    let cut: usize = if plen >= 4 && pattern_bytes[plen - 4] == 0x2f && pattern_bytes[plen - 3] == 0x2a
        && pattern_bytes[plen - 2] == 0x2a && pattern_bytes[plen - 1] == 0x2f {
        4
    } else if plen >= 3 && pattern_bytes[plen - 3] == 0x2f && pattern_bytes[plen - 2] == 0x2a && pattern_bytes[plen
        - 1] == 0x2a {
        3
    } else if plen >= 1 && pattern_bytes[plen - 1] == 0x2f {
        1
    } else {
        0
    };
    let directory = cut > 0;
    assert(cut == trailing_dir_len(pb));
    let body = &pattern_bytes[0..plen - cut];
    proof {
        if cut > 0 {
            lemma_split_after_ascii(pb, plen - cut + 1);
            is_char_boundary_iff_not_is_continuation_byte(pb, plen - cut);
            valid_utf8_split(pb, plen - cut);
        } else {
            assert(body@ =~= pb);
        }
    }
    // Ignore redundant leading `**/`.
    let body = if body.len() >= 3 && body[0] == 0x2a && body[1] == 0x2a && body[2] == 0x2f {
        proof {
            lemma_split_after_ascii(body@, 3);
        }
        &body[3..body.len()]
    } else {
        body
    };
    assert(body@ == pattern_body(pb));
    let hlen = path_bytes.len();
    assert(path_bytes@.subrange(0, hlen as int) =~= path_bytes@);
    if match_all(body, path_bytes, directory) {
        assert(component_start(hb, 0));
        return true;
    }
    // Try matching at the start of each path component.
    let mut i: usize = 0;
    while i < hlen
        invariant
            0 <= i <= hlen,
            hlen == hb.len(),
            path_bytes@ == hb,
            hb == path.spec_bytes(),
            pb == pattern.spec_bytes(),
            valid_utf8(hb),
            valid_utf8(body@),
            body@ == pattern_body(pb),
            directory == pattern_is_dir(pb),
            forall|off: int|
                #![trigger component_start(hb, off)]
                0 <= off <= i && component_start(hb, off) ==> !glob_match_all(
                    body@,
                    hb.subrange(off, hlen as int),
                    directory,
                ),
        decreases hlen - i,
    {
        if path_bytes[i] == 0x2f {
            let offset = i + 1;
            proof {
                lemma_split_after_ascii(hb, offset as int);
            }
            let rest = &path_bytes[offset..hlen];
            assert(rest@ == hb.subrange(offset as int, hlen as int));
            if match_all(body, rest, directory) {
                assert(component_start(hb, offset as int));
                return true;
            }
        }
        i = i + 1;
    }
    assert forall|off: int| #[trigger] component_start(hb, off) implies !glob_match_all(
        body@,
        hb.subrange(off, hlen as int),
        directory,
    ) by {
        assert(0 <= off <= i);
    }
    false
}

}
