//! Scenes: lights, view transforms, and the line-oriented scene-file
//! parser.
//!
//! A scene file is parsed line by line; blank lines and `#` comments are
//! skipped, malformed lines are reported with their line number and
//! ignored, and the surviving commands are folded into a `Scene`.
//! Numbers are plain decimals and become fixed-point lattice values
//! exactly (truncating beyond the lattice resolution).

use vstd::prelude::*;
use crate::linear::{Vec3, Frame, Ray, in_box, sub_v, norm2_raw, dot_raw, add_scaled,
    basis_project, basis_wf, normalize_v, rodrigues_v};
use crate::mat::{Color, Material, C_ONE};
use crate::math::{tdiv, smin, FP, div_t, lemma_tdiv_bound, lemma_mul_bound};
use crate::sdf::{Sdf, Sphere, PolyFace, EmptySDF, G_MAX, FACE_MAX_VERTS};
use vstd::string::StrSliceExecFns;

verus! {

/// Whitespace inside a line: spaces, tabs, and a stray carriage return.
pub open spec fn is_ws(c: char) -> bool {
    c == ' ' || c == '\t' || c == '\r'
}

/// The first index at or after `i` holding a non-whitespace character.
pub open spec fn skip_ws(s: Seq<char>, i: int) -> int
    decreases s.len() - i,
{
    if i < 0 || i >= s.len() {
        s.len() as int
    } else if is_ws(s[i]) {
        skip_ws(s, i + 1)
    } else {
        i
    }
}

/// The first index at or after `i` holding whitespace.
pub open spec fn token_end(s: Seq<char>, i: int) -> int
    decreases s.len() - i,
{
    if i < 0 || i >= s.len() {
        s.len() as int
    } else if is_ws(s[i]) {
        i
    } else {
        token_end(s, i + 1)
    }
}

/// The whitespace-separated tokens of `s` from index `i` on.
pub open spec fn tokens_from(s: Seq<char>, i: int) -> Seq<Seq<char>>
    decreases s.len() - i,
    via tokens_from_decreases
{
    if i < 0 || i >= s.len() {
        Seq::empty()
    } else {
        let j = skip_ws(s, i);
        if j >= s.len() {
            Seq::empty()
        } else {
            let k = token_end(s, j);
            seq![s.subrange(j, k)] + tokens_from(s, k)
        }
    }
}

#[via_fn]
proof fn tokens_from_decreases(s: Seq<char>, i: int) {
    if 0 <= i < s.len() {
        lemma_skip_ws(s, i);
        let j = skip_ws(s, i);
        if j < s.len() {
            lemma_token_end(s, j + 1);
            assert(token_end(s, j) == token_end(s, j + 1));
        }
    }
}

/// `skip_ws` lands between `i` and the end, on a non-blank if any.
proof fn lemma_skip_ws(s: Seq<char>, i: int)
    requires
        0 <= i <= s.len(),
    ensures
        i <= skip_ws(s, i) <= s.len(),
        skip_ws(s, i) < s.len() ==> !is_ws(s[skip_ws(s, i)]),
    decreases s.len() - i,
{
    if i < s.len() && is_ws(s[i]) {
        lemma_skip_ws(s, i + 1);
    }
}

/// `token_end` lands between `i` and the end, on a blank if any.
proof fn lemma_token_end(s: Seq<char>, i: int)
    requires
        0 <= i <= s.len(),
    ensures
        i <= token_end(s, i) <= s.len(),
        token_end(s, i) < s.len() ==> is_ws(s[token_end(s, i)]),
    decreases s.len() - i,
{
    if i < s.len() && !is_ws(s[i]) {
        lemma_token_end(s, i + 1);
    }
}

/// Whether one character is line whitespace.
fn ws_char(c: char) -> (r: bool)
    ensures
        r == is_ws(c),
{
    c == ' ' || c == '\t' || c == '\r'
}

/// Split a line into its whitespace-separated tokens.
pub fn tokenize<'a>(line: &'a str) -> (tokens: Vec<&'a str>)
    requires
        line@.len() < 0x10000000,
    ensures
        tokens@.map_values(|t: &str| t@) == tokens_from(line@, 0),
{
    let n = line.unicode_len();
    let mut tokens: Vec<&'a str> = Vec::new();
    let mut i: usize = 0;
    proof {
        assert(tokens@.map_values(|t: &str| t@) =~= Seq::<Seq<char>>::empty());
    }
    while i < n
        invariant
            n == line@.len(),
            n < 0x10000000,
            0 <= i <= n,
            tokens_from(line@, 0) == tokens@.map_values(|t: &str| t@) + tokens_from(
                line@,
                i as int,
            ),
        decreases n - i,
    {
        let ghost i0 = i as int;
        while i < n && ws_char(line.get_char(i))
            invariant
                n == line@.len(),
                0 <= i0 <= i <= n,
                skip_ws(line@, i0) == skip_ws(line@, i as int),
            decreases n - i,
        {
            i = i + 1;
        }
        proof {
            assert(skip_ws(line@, i as int) == i as int);
            if i0 < n {
                assert(tokens_from(line@, i0) =~= tokens_from(line@, i as int));
            }
        }
        if i < n {
            let start = i;
            while i < n && !ws_char(line.get_char(i))
                invariant
                    n == line@.len(),
                    0 <= start <= i <= n,
                    token_end(line@, start as int) == token_end(line@, i as int),
                decreases n - i,
            {
                i = i + 1;
            }
            proof {
                assert(token_end(line@, i as int) == i as int);
                assert(skip_ws(line@, start as int) == start as int);
            }
            let tok = line.substring_char(start, i);
            let ghost old_tokens = tokens@;
            tokens.push(tok);
            proof {
                assert(tokens_from(line@, start as int) =~= seq![
                    line@.subrange(start as int, i as int),
                ] + tokens_from(line@, i as int));
                assert(tokens@ =~= old_tokens + seq![tok]);
                assert(tokens@.map_values(|t: &str| t@) =~= old_tokens.map_values(|t: &str| t@)
                    + seq![tok@]);
                assert(tokens@.map_values(|t: &str| t@) + tokens_from(line@, i as int)
                    =~= old_tokens.map_values(|t: &str| t@) + tokens_from(line@, start as int));
            }
        }
    }
    proof {
        assert(tokens_from(line@, i as int) =~= Seq::<Seq<char>>::empty());
        assert(tokens@.map_values(|t: &str| t@) =~= tokens_from(line@, 0));
    }
    tokens
}


/// The value of a decimal digit character, `-1` if it is none.
pub open spec fn digit(c: char) -> int {
    if '0' <= c && c <= '9' {
        c as int - '0' as int
    } else {
        -1
    }
}

/// All characters of `s` in `[i, j)` are decimal digits.
pub open spec fn all_digits(s: Seq<char>, i: int, j: int) -> bool {
    forall|k: int| i <= k < j ==> #[trigger] digit(s[k]) >= 0
}

/// The number the digits of `s` in `[i, j)` spell.
pub open spec fn digits_val(s: Seq<char>, i: int, j: int) -> int
    decreases j - i,
{
    if j <= i {
        0
    } else {
        digits_val(s, i, j - 1) * 10 + digit(s[j - 1])
    }
}

/// Ten to the `k`.
pub open spec fn pow10(k: nat) -> int
    decreases k,
{
    if k == 0 {
        1
    } else {
        10 * pow10((k - 1) as nat)
    }
}

/// The index of the first `.` at or after `i`, or the length.
pub open spec fn dot_idx(s: Seq<char>, i: int) -> int
    decreases s.len() - i,
{
    if i < 0 || i >= s.len() {
        s.len() as int
    } else if s[i] == '.' {
        i
    } else {
        dot_idx(s, i + 1)
    }
}

/// The fixed-point value of a decimal token: optional sign, digits, an
/// optional fraction, between one and fifteen digits in all, and a value
/// within the geometry bound.
pub open spec fn num_sp(s: Seq<char>) -> Option<int> {
    if s.len() == 0 {
        None
    } else {
        let sign: int = if s[0] == '-' {
            -1
        } else {
            1
        };
        let b: int = if s[0] == '-' || s[0] == '+' {
            1
        } else {
            0
        };
        let d = dot_idx(s, b);
        let k: int = if d >= s.len() {
            0
        } else {
            s.len() - d - 1
        };
        if all_digits(s, b, d) && (d >= s.len() || all_digits(s, d + 1, s.len() as int)) && 1 <= (d
            - b) + k <= 15 {
            let frac: int = if d >= s.len() {
                0
            } else {
                digits_val(s, d + 1, s.len() as int)
            };
            let m = digits_val(s, b, d) * pow10(k as nat) + frac;
            let v = sign * tdiv(m * FP, pow10(k as nat));
            if -G_MAX <= v <= G_MAX {
                Some(v)
            } else {
                None
            }
        } else {
            None
        }
    }
}

/// Digits spell a non-negative number below ten to their count.
proof fn lemma_digits_val_bound(s: Seq<char>, i: int, j: int)
    requires
        0 <= i <= j <= s.len(),
        all_digits(s, i, j),
    ensures
        0 <= digits_val(s, i, j) < pow10((j - i) as nat),
    decreases j - i,
{
    if j > i {
        lemma_digits_val_bound(s, i, j - 1);
        assert(digit(s[j - 1]) >= 0);
        assert(digits_val(s, i, j) < pow10((j - i) as nat)) by (nonlinear_arith)
            requires
                digits_val(s, i, j) == digits_val(s, i, j - 1) * 10 + digit(s[j - 1]),
                0 <= digits_val(s, i, j - 1) < pow10((j - i - 1) as nat),
                digit(s[j - 1]) <= 9,
                pow10((j - i) as nat) == 10 * pow10((j - i - 1) as nat),
        ;
    }
}

/// Powers of ten are positive and monotone.
proof fn lemma_pow10_mono(a: nat, b: nat)
    requires
        a <= b,
    ensures
        1 <= pow10(a) <= pow10(b),
    decreases b,
{
    if b > 0 {
        if a == b {
            lemma_pow10_mono((a - 1) as nat, (b - 1) as nat);
        } else {
            lemma_pow10_mono(a, (b - 1) as nat);
        }
        assert(pow10(b) == 10 * pow10((b - 1) as nat));
    }
}

/// Powers of ten multiply by adding exponents.
proof fn lemma_pow10_add(a: nat, b: nat)
    ensures
        pow10(a) * pow10(b) == pow10(a + b),
    decreases a,
{
    if a == 0 {
        assert(pow10(0) == 1);
        assert(1 * pow10(b) == pow10(b)) by (nonlinear_arith);
    } else {
        lemma_pow10_add((a - 1) as nat, b);
        assert(pow10(a) * pow10(b) == 10 * (pow10((a - 1) as nat) * pow10(b))) by (nonlinear_arith)
            requires
                pow10(a) == 10 * pow10((a - 1) as nat),
        ;
    }
}

/// The value of one digit character.
fn dec_val(c: char) -> (v: Option<u8>)
    ensures
        match v {
            Some(d) => digit(c) == d && d <= 9,
            None => digit(c) == -1,
        },
{
    if '0' <= c && c <= '9' {
        Some((c as u32 - '0' as u32) as u8)
    } else {
        None
    }
}

/// Ten to the `k`, executable.
fn pow10_exec(k: usize) -> (r: u64)
    requires
        k <= 15,
    ensures
        r == pow10(k as nat),
{
    proof {
        reveal_with_fuel(pow10, 17);
    }
    let mut r: u64 = 1;
    let mut i: usize = 0;
    while i < k
        invariant
            i <= k <= 15,
            r == pow10(i as nat),
        decreases k - i,
    {
        proof {
            lemma_pow10_mono(i as nat, 14);
            reveal_with_fuel(pow10, 17);
        }
        r = r * 10;
        i = i + 1;
    }
    r
}

/// Scan the digits of `tok` in `[from, to)` into a value; `None` as soon
/// as a non-digit stands there.
fn scan_digits(tok: &str, from: usize, to: usize) -> (v: Option<u64>)
    requires
        from <= to <= tok@.len(),
        to - from <= 15,
        tok@.len() < 0x10000000,
    ensures
        match v {
            Some(m) => all_digits(tok@, from as int, to as int) && m == digits_val(
                tok@,
                from as int,
                to as int,
            ),
            None => !all_digits(tok@, from as int, to as int),
        },
{
    let mut m: u64 = 0;
    let mut i: usize = from;
    while i < to
        invariant
            from <= i <= to <= tok@.len(),
            to - from <= 15,
            all_digits(tok@, from as int, i as int),
            m == digits_val(tok@, from as int, i as int),
            0 <= m < pow10((i - from) as nat),
        decreases to - i,
    {
        match dec_val(tok.get_char(i)) {
            Some(d) => {
                proof {
                    lemma_pow10_mono((i - from) as nat, 14);
                    reveal_with_fuel(pow10, 17);
                }
                m = m * 10 + (d as u64);
                i = i + 1;
                proof {
                    lemma_digits_val_bound(tok@, from as int, i as int);
                }
            },
            None => {
                proof {
                    assert(digit(tok@[i as int]) == -1);
                }
                return None;
            },
        }
    }
    Some(m)
}

/// Parse one decimal token into a fixed-point value; `None` when the
/// token is malformed or out of range.
#[verifier::rlimit(100)]
#[verifier::spinoff_prover]
pub fn parse_number(tok: &str) -> (v: Option<i64>)
    requires
        tok@.len() < 0x10000000,
    ensures
        match v {
            Some(x) => num_sp(tok@) == Some(x as int),
            None => num_sp(tok@) is None,
        },
{
    let n = tok.unicode_len();
    if n == 0 {
        return None;
    }
    let c0 = tok.get_char(0);
    let neg = c0 == '-';
    let b: usize = if c0 == '-' || c0 == '+' {
        1
    } else {
        0
    };
    let mut d: usize = b;
    while d < n && tok.get_char(d) != '.'
        invariant
            b <= d <= n,
            n == tok@.len(),
            n < 0x10000000,
            dot_idx(tok@, b as int) == dot_idx(tok@, d as int),
        decreases n - d,
    {
        d = d + 1;
    }
    proof {
        assert(dot_idx(tok@, d as int) == d as int);
    }
    let k: usize = if d >= n {
        0
    } else {
        n - d - 1
    };
    if d - b + k < 1 || d - b + k > 15 {
        return None;
    }
    let iv = match scan_digits(tok, b, d) {
        Some(m) => m,
        None => {
            return None;
        },
    };
    let fv = match (if d >= n {
        Some(0u64)
    } else {
        scan_digits(tok, d + 1, n)
    }) {
        Some(m) => m,
        None => {
            return None;
        },
    };
    proof {
        lemma_digits_val_bound(tok@, b as int, d as int);
        if (d as int) < n as int {
            lemma_digits_val_bound(tok@, d as int + 1, n as int);
        }
        lemma_pow10_mono(k as nat, 15);
        lemma_pow10_mono(((d - b) + k) as nat, 15);
        lemma_pow10_mono(0, k as nat);
        lemma_pow10_add((d - b) as nat, k as nat);
        reveal_with_fuel(pow10, 17);
        assert(pow10(15) == 1000000000000000);
    }
    let p = pow10_exec(k);
    proof {
        assert((iv as int) * (pow10(k as nat)) + fv < pow10(((d - b) + k) as nat))
            by (nonlinear_arith)
            requires
                0 <= iv as int,
                (iv as int) < pow10((d - b) as nat),
                0 <= fv,
                fv < pow10(k as nat),
                pow10((d - b) as nat) * pow10(k as nat) == pow10(((d - b) + k) as nat),
                1 <= pow10(k as nat),
        ;
        assert((iv as int) * (pow10(k as nat)) + fv < 1000000000000000);
    }
    let m = (iv as u128) * (p as u128) + (fv as u128);
    let v128 = div_t((m as i128) * (FP as i128), p as i128);
    proof {
        crate::math::lemma_tdiv_shrinks((m as int) * (FP as int), pow10(k as nat));
        crate::math::lemma_mul_bound(m as int, FP as int, 1000000000000000, FP as int);
    }
    let v = if neg {
        -v128
    } else {
        v128
    };
    if v < -(G_MAX as i128) || v > G_MAX as i128 {
        proof {
            assert(num_sp(tok@) is None);
        }
        return None;
    }
    Some(v as i64)
}


/// A point light with quadratic falloff.
#[derive(Clone, Copy, PartialEq, Eq, Structural, Debug)]
pub struct Light {
    pub position: Vec3,
    pub color: Color,
    pub atten: i64,
}

/// Bounds under which a light's arithmetic stays exact.
pub open spec fn light_wf(l: Light) -> bool {
    &&& in_box(l.position@, G_MAX as int)
    &&& 0 < l.atten <= G_MAX
    &&& -crate::mat::C_MAX <= l.color@.0 <= crate::mat::C_MAX
    &&& -crate::mat::C_MAX <= l.color@.1 <= crate::mat::C_MAX
    &&& -crate::mat::C_MAX <= l.color@.2 <= crate::mat::C_MAX
}

/// The fixed-point attenuation factor at a point: the square of the
/// attenuation radius over the squared distance, capped at one.
pub open spec fn atten_factor(l: Light, p: (int, int, int)) -> int {
    let d2 = norm2_raw(sub_v(p, l.position@));
    if d2 == 0 {
        FP as int
    } else {
        smin(FP as int, tdiv(l.atten * l.atten * FP, d2))
    }
}

impl Light {
    pub fn new(position: Vec3, color: Color, atten: i64) -> (l: Self)
        ensures
            l.position == position && l.color == color && l.atten == atten,
    {
        Self { position, color, atten }
    }

    /// The ray from a point toward this light; its direction's length is
    /// the distance to the light.
    pub fn shadow_ray(&self, point: &Vec3) -> (r: Ray)
        requires
            in_box(self.position@, 0x1000000000000000),
            in_box(point@, 0x1000000000000000),
        ensures
            r.origin == *point,
            r.direction@ == sub_v(self.position@, point@),
    {
        Ray::new(*point, self.position.diff(point))
    }

    /// The light's color as seen from a point, scaled by attenuation.
    pub fn color(&self, point: &Vec3) -> (c: Color)
        requires
            light_wf(*self),
            in_box(point@, 0x4000000000),
        ensures
            ({
                let f = atten_factor(*self, point@);
                c@ == (
                    tdiv(self.color@.0 * f, FP as int),
                    tdiv(self.color@.1 * f, FP as int),
                    tdiv(self.color@.2 * f, FP as int),
                )
            }),
    {
        let dx = (point.x - self.position.x) as i128;
        let dy = (point.y - self.position.y) as i128;
        let dz = (point.z - self.position.z) as i128;
        proof {
            lemma_mul_bound(dx as int, dx as int, 0x8000000000, 0x8000000000);
            lemma_mul_bound(dy as int, dy as int, 0x8000000000, 0x8000000000);
            lemma_mul_bound(dz as int, dz as int, 0x8000000000, 0x8000000000);
            assert(0x8000000000 * 0x8000000000 == 0x40000000000000000000int) by (nonlinear_arith);
            crate::linear::lemma_norm2_nonneg(sub_v(point@, self.position@));
            lemma_mul_bound(self.atten as int, self.atten as int, G_MAX as int, G_MAX as int);
            assert((G_MAX as int) * (G_MAX as int) == 0x4000000000000000000) by (nonlinear_arith)
                requires
                    G_MAX == 0x2000000000,
            ;
        }
        let d2 = dx * dx + dy * dy + dz * dz;
        let factor: i64 = if d2 == 0 {
            FP
        } else {
            let q = div_t((self.atten as i128) * (self.atten as i128) * (FP as i128), d2);
            proof {
                crate::math::lemma_tdiv_shrinks(
                    (self.atten as int) * (self.atten as int) * (FP as int),
                    d2 as int,
                );
            }
            if q >= FP as i128 {
                FP
            } else {
                q as i64
            }
        };
        self.color.scale(factor)
    }
}

/// An orthographic view: rays leave the frame's plane along its third
/// axis.
#[derive(Clone, Copy, Debug)]
pub struct OrthoView {
    pub frame: Frame,
}

/// A perspective view: rays leave the eye through a near plane whose
/// half-extent is `tan(fov / 2) * near`.
#[derive(Clone, Copy, Debug)]
pub struct PerspView {
    pub eye_frame: Frame,
    pub near: i64,
    pub fov_degrees: i64,
}

#[derive(Clone, Copy, Debug)]
pub enum ViewTransform {
    Ortho(OrthoView),
    Persp(PerspView),
}

/// Bounds a view must keep for projection to stay exact.
pub open spec fn view_wf(v: ViewTransform) -> bool {
    match v {
        ViewTransform::Ortho(o) => basis_wf(o.frame.basis) && in_box(o.frame.origin@, G_MAX as int),
        ViewTransform::Persp(p) => basis_wf(p.eye_frame.basis) && in_box(
            p.eye_frame.origin@,
            G_MAX as int,
        ) && in_box(p.eye_frame.basis.axes.0@, 0x20000) && in_box(p.eye_frame.basis.axes.1@, 0x20000)
            && in_box(p.eye_frame.basis.axes.2@, 0x20000) && 0 < p.near <= 0x4000000 && 0
            <= p.fov_degrees,
    }
}

/// The ray an orthographic view casts for a local point.
pub open spec fn ortho_ray(o: OrthoView, local: (int, int, int)) -> Ray {
    Ray {
        origin: Vec3 {
            x: add_scaled(basis_project(o.frame.basis, local), FP as int, o.frame.origin@).0 as i64,
            y: add_scaled(basis_project(o.frame.basis, local), FP as int, o.frame.origin@).1 as i64,
            z: add_scaled(basis_project(o.frame.basis, local), FP as int, o.frame.origin@).2 as i64,
        },
        direction: Vec3 {
            x: basis_project(o.frame.basis, (0int, 0int, FP as int)).0 as i64,
            y: basis_project(o.frame.basis, (0int, 0int, FP as int)).1 as i64,
            z: basis_project(o.frame.basis, (0int, 0int, FP as int)).2 as i64,
        },
    }
}

/// The point on the near plane a perspective view shoots through, given
/// the half-extent of the near plane.
pub open spec fn persp_plane_point(p: PerspView, half: int, local: (int, int, int)) -> (
    int,
    int,
    int,
) {
    let b = p.eye_frame.basis;
    let np_origin = add_scaled(
        basis_project(b, (0int, 0int, p.near as int)),
        FP as int,
        p.eye_frame.origin@,
    );
    let np_i = basis_project(b, (half, 0int, 0int));
    let np_j = basis_project(b, (0int, half, 0int));
    let np_k = basis_project(b, (0int, 0int, FP as int));
    add_scaled(
        add_scaled(
            add_scaled(add_scaled((0int, 0int, 0int), local.0, np_i), local.1, np_j),
            local.2,
            np_k,
        ),
        FP as int,
        np_origin,
    )
}

/// The ray a perspective view casts: from the eye, through the near
/// plane, normalized.
pub open spec fn persp_ray(p: PerspView, half: int, local: (int, int, int)) -> Ray {
    let d = normalize_v(sub_v(persp_plane_point(p, half, local), p.eye_frame.origin@));
    Ray {
        origin: p.eye_frame.origin,
        direction: Vec3 { x: d.0 as i64, y: d.1 as i64, z: d.2 as i64 },
    }
}

/// A basis projection of a single scaled axis direction stays in a box
/// proportional to the scale.
proof fn lemma_scaled_axis_box(b: crate::linear::Basis, s: int, sb: int, c: int)
    requires
        in_box(b.axes.0@, 0x20000),
        in_box(b.axes.1@, 0x20000),
        in_box(b.axes.2@, 0x20000),
        -sb <= s <= sb,
        0 <= sb,
        0 <= c,
        sb * 0x20000 <= 65536 * c,
    ensures
        in_box(basis_project(b, (s, 0int, 0int)), c),
        in_box(basis_project(b, (0int, s, 0int)), c),
        in_box(basis_project(b, (0int, 0int, s)), c),
{
    lemma_mul_bound(s, b.axes.0@.0, sb, 0x20000);
    lemma_mul_bound(s, b.axes.0@.1, sb, 0x20000);
    lemma_mul_bound(s, b.axes.0@.2, sb, 0x20000);
    lemma_mul_bound(s, b.axes.1@.0, sb, 0x20000);
    lemma_mul_bound(s, b.axes.1@.1, sb, 0x20000);
    lemma_mul_bound(s, b.axes.1@.2, sb, 0x20000);
    lemma_mul_bound(s, b.axes.2@.0, sb, 0x20000);
    lemma_mul_bound(s, b.axes.2@.1, sb, 0x20000);
    lemma_mul_bound(s, b.axes.2@.2, sb, 0x20000);
    lemma_tdiv_bound(s * b.axes.0@.0, FP as int, c);
    lemma_tdiv_bound(s * b.axes.0@.1, FP as int, c);
    lemma_tdiv_bound(s * b.axes.0@.2, FP as int, c);
    lemma_tdiv_bound(s * b.axes.1@.0, FP as int, c);
    lemma_tdiv_bound(s * b.axes.1@.1, FP as int, c);
    lemma_tdiv_bound(s * b.axes.1@.2, FP as int, c);
    lemma_tdiv_bound(s * b.axes.2@.0, FP as int, c);
    lemma_tdiv_bound(s * b.axes.2@.1, FP as int, c);
    lemma_tdiv_bound(s * b.axes.2@.2, FP as int, c);
}

impl ViewTransform {
    /// Cast the ray for a local point in `[-1, 1] x [-1, 1]`.  For a
    /// perspective view, `fov_tan` is `tan(fov_degrees / 2)` as a
    /// fixed-point value, supplied by the caller since the tangent is
    /// beyond lattice arithmetic; an orthographic view ignores it.
    pub fn project(&self, local: &Vec3, fov_tan: i64) -> (r: Ray)
        requires
            view_wf(*self),
            in_box(local@, 0x200000),
            0 <= fov_tan <= 0x400000,
        ensures
            match *self {
                ViewTransform::Ortho(o) => r == ortho_ray(o, local@),
                ViewTransform::Persp(p) => r == persp_ray(
                    p,
                    tdiv(fov_tan * p.near, FP as int),
                    local@,
                ),
            },
    {
        match self {
            ViewTransform::Ortho(o) => {
                let origin = o.frame.project_point(local);
                let dir = o.frame.project_vec(&Vec3::forward());
                Ray::new(origin, dir)
            },
            ViewTransform::Persp(p) => {
                proof {
                    lemma_mul_bound(fov_tan as int, p.near as int, 0x400000, 0x4000000);
                    crate::math::lemma_tdiv_bound(
                        fov_tan * p.near,
                        FP as int,
                        0x40000000000,
                    );
                }
                let half = div_t((fov_tan as i128) * (p.near as i128), FP as i128) as i64;
                proof {
                    lemma_scaled_axis_box(p.eye_frame.basis, half as int, 0x100000000, 0x2000000000);
                    lemma_scaled_axis_box(p.eye_frame.basis, FP as int, FP as int, 0x20000);
                    lemma_scaled_axis_box(p.eye_frame.basis, p.near as int, 0x4000000, 0x8000000);
                    lemma_tdiv_bound(FP * (p.eye_frame.origin.x as int), FP as int, G_MAX as int);
                    lemma_tdiv_bound(FP * (p.eye_frame.origin.y as int), FP as int, G_MAX as int);
                    lemma_tdiv_bound(FP * (p.eye_frame.origin.z as int), FP as int, G_MAX as int);
                    lemma_mul_bound(FP as int, p.eye_frame.origin.x as int, FP as int, G_MAX as int);
                    lemma_mul_bound(FP as int, p.eye_frame.origin.y as int, FP as int, G_MAX as int);
                    lemma_mul_bound(FP as int, p.eye_frame.origin.z as int, FP as int, G_MAX as int);
                }
                let np_origin = p.eye_frame.project_point(&Vec3::new(0, 0, p.near));
                let np_i = p.eye_frame.project_vec(&Vec3::new(half, 0, 0));
                let np_j = p.eye_frame.project_vec(&Vec3::new(0, half, 0));
                let np_k = p.eye_frame.project_vec(&Vec3::forward());
                let near_plane = Frame::new(np_origin, np_i, np_j, np_k);
                let pnp = near_plane.project_point(local);
                let dir = pnp.diff(&p.eye_frame.origin).normalize();
                Ray::new(p.eye_frame.origin, dir)
            },
        }
    }
}


/// One parsed scene-file command.
#[derive(Clone, Copy, PartialEq, Eq, Structural, Debug)]
pub enum SceneCommand {
    Fov(i64),
    Light(Vec3, Color),
    Surface(Material),
    Sphere(i64, Vec3),
    Background(Color),
    Begin,
    End,
    Vertex(Vec3),
    Write,
}

/// Why a line was rejected.
#[derive(Clone, Copy, PartialEq, Eq, Structural, Debug)]
pub enum ParseErrorKind {
    UnknownCommand,
    BadNumber,
}

/// A rejected line: its one-based number and the reason.
#[derive(Clone, Copy, PartialEq, Eq, Structural, Debug)]
pub struct ParseError {
    pub line: usize,
    pub kind: ParseErrorKind,
}

/// The outcome of one line.
#[derive(Clone, Copy, PartialEq, Eq, Structural, Debug)]
pub enum LineRes {
    Cmd(SceneCommand),
    Reject(ParseErrorKind),
    Blank,
}

/// A scene-file number as a color channel: rescaled so that `1.0` is
/// full intensity.
pub open spec fn chan_of_fp(n: int) -> int {
    tdiv(n * (C_ONE as int), FP as int)
}

/// A color from three scene-file numbers.
pub open spec fn color_of_nums(n: (int, int, int)) -> Color {
    Color { r: chan_of_fp(n.0) as i64, g: chan_of_fp(n.1) as i64, b: chan_of_fp(n.2) as i64 }
}

/// A point from three scene-file numbers.
pub open spec fn vec_of_nums(n: (int, int, int)) -> Vec3 {
    Vec3 { x: n.0 as i64, y: n.1 as i64, z: n.2 as i64 }
}

/// Three consecutive tokens as numbers.
pub open spec fn nums3(ts: Seq<Seq<char>>, i: int) -> Option<(int, int, int)> {
    match (num_sp(ts[i]), num_sp(ts[i + 1]), num_sp(ts[i + 2])) {
        (Some(a), Some(b), Some(c)) => Some((a, b, c)),
        _ => None,
    }
}

/// The material a `surface` line describes: colors, phong exponent and
/// reflectivity; opacity and refraction keep their defaults.
pub open spec fn surface_mat(d: (int, int, int), a: (int, int, int), sp: (int, int, int), ph: int, kr: int) -> Material {
    Material {
        ambient: color_of_nums(a),
        diffuse: color_of_nums(d),
        specular: color_of_nums(sp),
        phong: ph as i64,
        reflectivity: kr as i64,
        opacity: FP,
        index_of_refraction: FP,
    }
}

/// What one line of a scene file means.
pub open spec fn line_res(line: Seq<char>) -> LineRes {
    let ts = tokens_from(line, 0);
    if ts.len() == 0 {
        LineRes::Blank
    } else if ts[0].len() > 0 && ts[0][0] == '#' {
        LineRes::Blank
    } else if ts[0] == "fov"@ {
        if ts.len() == 2 {
            match num_sp(ts[1]) {
                Some(f) => LineRes::Cmd(SceneCommand::Fov(f as i64)),
                None => LineRes::Reject(ParseErrorKind::BadNumber),
            }
        } else {
            LineRes::Reject(ParseErrorKind::UnknownCommand)
        }
    } else if ts[0] == "light"@ {
        if ts.len() == 7 {
            match (nums3(ts, 1), nums3(ts, 4)) {
                (Some(p), Some(c)) => LineRes::Cmd(
                    SceneCommand::Light(vec_of_nums(p), color_of_nums(c)),
                ),
                _ => LineRes::Reject(ParseErrorKind::BadNumber),
            }
        } else {
            LineRes::Reject(ParseErrorKind::UnknownCommand)
        }
    } else if ts[0] == "surface"@ {
        if ts.len() == 12 {
            match (nums3(ts, 1), nums3(ts, 4), nums3(ts, 7), num_sp(ts[10]), num_sp(ts[11])) {
                (Some(d), Some(a), Some(sp), Some(ph), Some(kr)) => LineRes::Cmd(
                    SceneCommand::Surface(surface_mat(d, a, sp, ph, kr)),
                ),
                _ => LineRes::Reject(ParseErrorKind::BadNumber),
            }
        } else {
            LineRes::Reject(ParseErrorKind::UnknownCommand)
        }
    } else if ts[0] == "sphere"@ {
        if ts.len() == 5 {
            match (num_sp(ts[1]), nums3(ts, 2)) {
                (Some(r), Some(c)) => if r > 0 {
                    LineRes::Cmd(SceneCommand::Sphere(r as i64, vec_of_nums(c)))
                } else {
                    LineRes::Reject(ParseErrorKind::BadNumber)
                },
                _ => LineRes::Reject(ParseErrorKind::BadNumber),
            }
        } else {
            LineRes::Reject(ParseErrorKind::UnknownCommand)
        }
    } else if ts[0] == "background"@ {
        if ts.len() == 4 {
            match nums3(ts, 1) {
                Some(c) => LineRes::Cmd(SceneCommand::Background(color_of_nums(c))),
                None => LineRes::Reject(ParseErrorKind::BadNumber),
            }
        } else {
            LineRes::Reject(ParseErrorKind::UnknownCommand)
        }
    } else if ts[0] == "begin"@ {
        if ts.len() == 1 {
            LineRes::Cmd(SceneCommand::Begin)
        } else {
            LineRes::Reject(ParseErrorKind::UnknownCommand)
        }
    } else if ts[0] == "end"@ {
        if ts.len() == 1 {
            LineRes::Cmd(SceneCommand::End)
        } else {
            LineRes::Reject(ParseErrorKind::UnknownCommand)
        }
    } else if ts[0] == "vertex"@ {
        if ts.len() == 4 {
            match nums3(ts, 1) {
                Some(v) => LineRes::Cmd(SceneCommand::Vertex(vec_of_nums(v))),
                None => LineRes::Reject(ParseErrorKind::BadNumber),
            }
        } else {
            LineRes::Reject(ParseErrorKind::UnknownCommand)
        }
    } else if ts[0] == "write"@ {
        if ts.len() == 2 {
            LineRes::Cmd(SceneCommand::Write)
        } else {
            LineRes::Reject(ParseErrorKind::UnknownCommand)
        }
    } else {
        LineRes::Reject(ParseErrorKind::UnknownCommand)
    }
}

/// Every token of a line is at most as long as the line.
proof fn lemma_tokens_from_len(s: Seq<char>, i: int)
    ensures
        forall|j: int|
            0 <= j < tokens_from(s, i).len() ==> #[trigger] tokens_from(s, i)[j].len() <= s.len(),
    decreases s.len() - i,
{
    if 0 <= i < s.len() {
        let jj = skip_ws(s, i);
        if jj < s.len() {
            let k = token_end(s, jj);
            lemma_skip_ws(s, i);
            lemma_token_end(s, jj);
            lemma_tokens_from_len(s, k);
            assert(tokens_from(s, i) == seq![s.subrange(jj, k)] + tokens_from(s, k));
        }
    }
}

/// Whether two strings hold the same characters.
fn str_is(a: &str, b: &str) -> (r: bool)
    ensures
        r == (a@ == b@),
{
    let na = a.unicode_len();
    let nb = b.unicode_len();
    if na != nb {
        return false;
    }
    let mut i: usize = 0;
    while i < na
        invariant
            na == a@.len(),
            nb == b@.len(),
            na == nb,
            0 <= i <= na,
            forall|j: int| 0 <= j < i ==> a@[j] == b@[j],
        decreases na - i,
    {
        if a.get_char(i) != b.get_char(i) {
            return false;
        }
        i = i + 1;
    }
    proof {
        assert(a@ =~= b@);
    }
    true
}

/// A color channel from a scene-file number.
fn chan_exec(n: i64) -> (c: i64)
    requires
        -G_MAX <= n <= G_MAX,
    ensures
        c == chan_of_fp(n as int),
{
    proof {
        lemma_mul_bound(n as int, C_ONE as int, G_MAX as int, C_ONE as int);
        lemma_tdiv_bound((n * C_ONE) as int, FP as int, 0x2000000000);
        assert((G_MAX as int) * (C_ONE as int) <= 65536 * 0x2000000000) by (nonlinear_arith)
            requires
                G_MAX == 0x2000000000,
                C_ONE == 65535,
        ;
    }
    div_t((n as i128) * (C_ONE as i128), FP as i128) as i64
}

/// A color from three parsed numbers.
fn color_exec(n: (i64, i64, i64)) -> (c: Color)
    requires
        -G_MAX <= n.0 <= G_MAX,
        -G_MAX <= n.1 <= G_MAX,
        -G_MAX <= n.2 <= G_MAX,
    ensures
        c == color_of_nums((n.0 as int, n.1 as int, n.2 as int)),
{
    Color { r: chan_exec(n.0), g: chan_exec(n.1), b: chan_exec(n.2) }
}

/// Three consecutive tokens as numbers, executable.
fn parse3(ts: &Vec<&str>, i: usize) -> (r: Option<(i64, i64, i64)>)
    requires
        i + 3 <= ts@.len(),
        forall|j: int| 0 <= j < ts@.len() ==> (#[trigger] ts@[j])@.len() < 0x10000000,
    ensures
        ({
            let tv = ts@.map_values(|t: &str| t@);
            match r {
                Some(v) => nums3(tv, i as int) == Some((v.0 as int, v.1 as int, v.2 as int))
                    && -G_MAX <= v.0 <= G_MAX && -G_MAX <= v.1 <= G_MAX && -G_MAX <= v.2 <= G_MAX,
                None => nums3(tv, i as int) is None,
            }
        }),
{
    let n = ts.len();
    let a = parse_number(ts[i]);
    let b = parse_number(ts[i + 1]);
    let c = parse_number(ts[i + 2]);
    match (a, b, c) {
        (Some(x), Some(y), Some(z)) => Some((x, y, z)),
        _ => None,
    }
}

/// Parse one line of a scene file.
pub fn parse_line(line: &str) -> (r: LineRes)
    requires
        line@.len() < 0x10000000,
    ensures
        r == line_res(line@),
{
    proof {
        lemma_tokens_from_len(line@, 0);
    }
    let ts = tokenize(line);
    let ghost tv = ts@.map_values(|t: &str| t@);
    proof {
        assert forall|j: int| 0 <= j < ts@.len() implies (#[trigger] ts@[j])@.len()
            < 0x10000000 by {
            assert((ts@[j])@ == tv[j]);
            assert(tv[j] == tokens_from(line@, 0)[j]);
            assert(tokens_from(line@, 0)[j].len() <= line@.len());
        }
    }
    if ts.len() == 0 {
        return LineRes::Blank;
    }
    let t0: &str = ts[0];
    if t0.unicode_len() > 0 && t0.get_char(0) == '#' {
        return LineRes::Blank;
    }
    if str_is(t0, "fov") {
        if ts.len() == 2 {
            match parse_number(ts[1]) {
                Some(f) => LineRes::Cmd(SceneCommand::Fov(f)),
                None => LineRes::Reject(ParseErrorKind::BadNumber),
            }
        } else {
            LineRes::Reject(ParseErrorKind::UnknownCommand)
        }
    } else if str_is(t0, "light") {
        if ts.len() == 7 {
            let p = parse3(&ts, 1);
            let c = parse3(&ts, 4);
            match (p, c) {
                (Some(p), Some(c)) => LineRes::Cmd(
                    SceneCommand::Light(Vec3::new(p.0, p.1, p.2), color_exec(c)),
                ),
                _ => LineRes::Reject(ParseErrorKind::BadNumber),
            }
        } else {
            LineRes::Reject(ParseErrorKind::UnknownCommand)
        }
    } else if str_is(t0, "surface") {
        if ts.len() == 12 {
            let d = parse3(&ts, 1);
            let a = parse3(&ts, 4);
            let sp = parse3(&ts, 7);
            let ph = parse_number(ts[10]);
            let kr = parse_number(ts[11]);
            match (d, a, sp, ph, kr) {
                (Some(d), Some(a), Some(sp), Some(ph), Some(kr)) => {
                    let mut m = Material::new();
                    m.ambient = color_exec(a);
                    m.diffuse = color_exec(d);
                    m.specular = color_exec(sp);
                    m.phong = ph;
                    m.reflectivity = kr;
                    LineRes::Cmd(SceneCommand::Surface(m))
                },
                _ => LineRes::Reject(ParseErrorKind::BadNumber),
            }
        } else {
            LineRes::Reject(ParseErrorKind::UnknownCommand)
        }
    } else if str_is(t0, "sphere") {
        if ts.len() == 5 {
            let r = parse_number(ts[1]);
            let c = parse3(&ts, 2);
            match (r, c) {
                (Some(r), Some(c)) => if r > 0 {
                    LineRes::Cmd(SceneCommand::Sphere(r, Vec3::new(c.0, c.1, c.2)))
                } else {
                    LineRes::Reject(ParseErrorKind::BadNumber)
                },
                _ => LineRes::Reject(ParseErrorKind::BadNumber),
            }
        } else {
            LineRes::Reject(ParseErrorKind::UnknownCommand)
        }
    } else if str_is(t0, "background") {
        if ts.len() == 4 {
            match parse3(&ts, 1) {
                Some(c) => LineRes::Cmd(SceneCommand::Background(color_exec(c))),
                None => LineRes::Reject(ParseErrorKind::BadNumber),
            }
        } else {
            LineRes::Reject(ParseErrorKind::UnknownCommand)
        }
    } else if str_is(t0, "begin") {
        if ts.len() == 1 {
            LineRes::Cmd(SceneCommand::Begin)
        } else {
            LineRes::Reject(ParseErrorKind::UnknownCommand)
        }
    } else if str_is(t0, "end") {
        if ts.len() == 1 {
            LineRes::Cmd(SceneCommand::End)
        } else {
            LineRes::Reject(ParseErrorKind::UnknownCommand)
        }
    } else if str_is(t0, "vertex") {
        if ts.len() == 4 {
            match parse3(&ts, 1) {
                Some(v) => LineRes::Cmd(SceneCommand::Vertex(Vec3::new(v.0, v.1, v.2))),
                None => LineRes::Reject(ParseErrorKind::BadNumber),
            }
        } else {
            LineRes::Reject(ParseErrorKind::UnknownCommand)
        }
    } else if str_is(t0, "write") {
        if ts.len() == 2 {
            LineRes::Cmd(SceneCommand::Write)
        } else {
            LineRes::Reject(ParseErrorKind::UnknownCommand)
        }
    } else {
        LineRes::Reject(ParseErrorKind::UnknownCommand)
    }
}


/// The index of the first newline at or after `i`, or the length.
pub open spec fn line_end(s: Seq<char>, i: int) -> int
    decreases s.len() - i,
{
    if i < 0 || i >= s.len() {
        s.len() as int
    } else if s[i] == '\n' {
        i
    } else {
        line_end(s, i + 1)
    }
}

/// `line_end` lands between `i` and the end.
proof fn lemma_line_end(s: Seq<char>, i: int)
    requires
        0 <= i <= s.len(),
    ensures
        i <= line_end(s, i) <= s.len(),
    decreases s.len() - i,
{
    if i < s.len() && s[i] != '\n' {
        lemma_line_end(s, i + 1);
    }
}

/// The commands and errors of the lines of `s` from `i` on, the first of
/// them numbered `ln`.
pub open spec fn res_from(s: Seq<char>, i: int, ln: int) -> (Seq<SceneCommand>, Seq<ParseError>)
    decreases s.len() + 1 - i,
    via res_from_decreases
{
    if i < 0 || i >= s.len() {
        (Seq::empty(), Seq::empty())
    } else {
        let e = line_end(s, i);
        let lr = line_res(s.subrange(i, e));
        let rest = res_from(s, e + 1, ln + 1);
        match lr {
            LineRes::Cmd(c) => (seq![c] + rest.0, rest.1),
            LineRes::Reject(k) => (rest.0, seq![ParseError { line: ln as usize, kind: k }]
                + rest.1),
            LineRes::Blank => rest,
        }
    }
}

#[via_fn]
proof fn res_from_decreases(s: Seq<char>, i: int, ln: int) {
    if 0 <= i < s.len() {
        lemma_line_end(s, i);
    }
}

/// Ranges a parsed command's payload is known to keep.
pub open spec fn cmd_wf(c: SceneCommand) -> bool {
    match c {
        SceneCommand::Fov(_) => true,
        SceneCommand::Light(p, col) => in_box(p@, G_MAX as int) && -crate::mat::C_MAX <= col@.0
            <= crate::mat::C_MAX && -crate::mat::C_MAX <= col@.1 <= crate::mat::C_MAX
            && -crate::mat::C_MAX <= col@.2 <= crate::mat::C_MAX,
        SceneCommand::Surface(_) => true,
        SceneCommand::Sphere(r, c) => 0 < r <= G_MAX && in_box(c@, G_MAX as int),
        SceneCommand::Background(_) => true,
        SceneCommand::Begin => true,
        SceneCommand::End => true,
        SceneCommand::Vertex(v) => in_box(v@, G_MAX as int),
        SceneCommand::Write => true,
    }
}

/// A scene-file channel value stays within the color bound.
proof fn lemma_chan_bound(n: int)
    requires
        -G_MAX <= n <= G_MAX,
    ensures
        -G_MAX <= chan_of_fp(n) <= G_MAX,
{
    lemma_mul_bound(n, C_ONE as int, G_MAX as int, C_ONE as int);
    assert((G_MAX as int) * (C_ONE as int) <= 65536 * (G_MAX as int)) by (nonlinear_arith)
        requires
            G_MAX == 0x2000000000,
            C_ONE == 65535,
    ;
    lemma_tdiv_bound(n * (C_ONE as int), FP as int, G_MAX as int);
}

/// Every command a line yields keeps its ranges.
proof fn lemma_line_res_wf(line: Seq<char>)
    ensures
        line_res(line) matches LineRes::Cmd(c) ==> cmd_wf(c),
{
    let ts = tokens_from(line, 0);
    if line_res(line) is Cmd {
        if ts.len() > 0 && !(ts[0].len() > 0 && ts[0][0] == '#') {
            if ts[0] == "light"@ && ts.len() == 7 {
                if nums3(ts, 1) is Some && nums3(ts, 4) is Some {
                    let c = nums3(ts, 4)->Some_0;
                    lemma_chan_bound(c.0);
                    lemma_chan_bound(c.1);
                    lemma_chan_bound(c.2);
                }
            }
        }
    }
}

/// Every command of a parse keeps its ranges.
#[verifier::rlimit(100)]
#[verifier::spinoff_prover]
proof fn lemma_res_from_wf(s: Seq<char>, i: int, ln: int)
    ensures
        forall|j: int|
            0 <= j < res_from(s, i, ln).0.len() ==> cmd_wf(#[trigger] res_from(s, i, ln).0[j]),
    decreases s.len() + 1 - i,
{
    if 0 <= i < s.len() {
        let e = line_end(s, i);
        lemma_line_end(s, i);
        lemma_line_res_wf(s.subrange(i, e));
        lemma_res_from_wf(s, e + 1, ln + 1);
        let lr = line_res(s.subrange(i, e));
        if lr is Cmd {
            assert(res_from(s, i, ln).0 == seq![lr->Cmd_0] + res_from(s, e + 1, ln + 1).0);
        }
    }
}

/// A parse yields at most one command per character plus one.
proof fn lemma_res_from_len(s: Seq<char>, i: int, ln: int)
    ensures
        res_from(s, i, ln).0.len() <= s.len() + 1 - i || i > s.len(),
        res_from(s, i, ln).0.len() <= s.len() + 1,
    decreases s.len() + 1 - i,
{
    if 0 <= i < s.len() {
        lemma_line_end(s, i);
        let e = line_end(s, i);
        lemma_res_from_len(s, e + 1, ln + 1);
    }
}

/// Split a scene file into commands and per-line errors.
#[verifier::rlimit(60)]
pub fn parse_commands(src: &str) -> (r: (Vec<SceneCommand>, Vec<ParseError>))
    requires
        src@.len() < 0x10000000,
    ensures
        r.0@ == res_from(src@, 0, 1).0,
        r.1@ == res_from(src@, 0, 1).1,
{
    let n = src.unicode_len();
    let mut cmds: Vec<SceneCommand> = Vec::new();
    let mut errs: Vec<ParseError> = Vec::new();
    let mut i: usize = 0;
    let mut ln: usize = 1;
    proof {
        assert(cmds@ =~= Seq::<SceneCommand>::empty());
        assert(errs@ =~= Seq::<ParseError>::empty());
    }
    while i < n
        invariant
            n == src@.len(),
            n < 0x10000000,
            0 <= i <= n + 1,
            1 <= ln <= i + 1,
            res_from(src@, 0, 1).0 == cmds@ + res_from(src@, i as int, ln as int).0,
            res_from(src@, 0, 1).1 == errs@ + res_from(src@, i as int, ln as int).1,
        decreases n + 1 - i,
    {
        let ghost i0 = i as int;
        let mut e: usize = i;
        while e < n && src.get_char(e) != '\n'
            invariant
                n == src@.len(),
                i0 <= e <= n,
                line_end(src@, i0) == line_end(src@, e as int),
            decreases n - e,
        {
            e = e + 1;
        }
        proof {
            assert(line_end(src@, e as int) == e as int);
        }
        let line = src.substring_char(i, e);
        let lr = parse_line(line);
        let ghost old_cmds = cmds@;
        let ghost old_errs = errs@;
        match lr {
            LineRes::Cmd(c) => {
                cmds.push(c);
            },
            LineRes::Reject(k) => {
                errs.push(ParseError { line: ln, kind: k });
            },
            LineRes::Blank => {},
        }
        proof {
            let rf = res_from(src@, i0, ln as int);
            let rest = res_from(src@, e + 1, ln as int + 1);
            assert(line@ == src@.subrange(i0, e as int));
            match line_res(src@.subrange(i0, e as int)) {
                LineRes::Cmd(c) => {
                    assert(rf.0 =~= seq![c] + rest.0);
                    assert(rf.1 =~= rest.1);
                    assert(cmds@ =~= old_cmds + seq![c]);
                    assert(old_cmds + rf.0 =~= cmds@ + rest.0);
                },
                LineRes::Reject(k) => {
                    assert(rf.1 =~= seq![ParseError { line: ln as usize, kind: k }] + rest.1);
                    assert(rf.0 =~= rest.0);
                    assert(errs@ =~= old_errs + seq![ParseError { line: ln, kind: k }]);
                    assert(old_errs + rf.1 =~= errs@ + rest.1);
                },
                LineRes::Blank => {},
            }
        }
        i = e + 1;
        ln = ln + 1;
    }
    proof {
        assert(res_from(src@, i as int, ln as int).0 =~= Seq::<SceneCommand>::empty());
        assert(res_from(src@, i as int, ln as int).1 =~= Seq::<ParseError>::empty());
        assert(cmds@ =~= res_from(src@, 0, 1).0);
        assert(errs@ =~= res_from(src@, 0, 1).1);
    }
    (cmds, errs)
}


/// A description of one scene object: enough to pin the built tree down.
#[derive(Clone, Copy, PartialEq, Eq, Structural, Debug)]
pub enum ObjDesc {
    Sph(i64, Vec3, Material),
    Bg(Color),
    FaceAt(i64, Material),
}

/// The current material after the first `i` commands.
pub open spec fn mat_pref(cmds: Seq<SceneCommand>, i: int) -> Material
    decreases i,
{
    if i <= 0 {
        crate::mat::default_material()
    } else {
        match cmds[i - 1] {
            SceneCommand::Surface(m) => m,
            _ => mat_pref(cmds, i - 1),
        }
    }
}

/// The accumulated polygon vertices after the first `i` commands.
pub open spec fn verts_pref(cmds: Seq<SceneCommand>, i: int) -> Seq<Vec3>
    decreases i,
{
    if i <= 0 {
        Seq::empty()
    } else {
        match cmds[i - 1] {
            SceneCommand::Begin => Seq::empty(),
            SceneCommand::Vertex(v) => {
                let p = verts_pref(cmds, i - 1);
                if p.len() < FACE_MAX_VERTS {
                    p.push(v)
                } else {
                    p
                }
            },
            _ => verts_pref(cmds, i - 1),
        }
    }
}

/// The lights after the first `i` commands.
pub open spec fn lights_pref(cmds: Seq<SceneCommand>, i: int) -> Seq<Light>
    decreases i,
{
    if i <= 0 {
        Seq::empty()
    } else {
        match cmds[i - 1] {
            SceneCommand::Light(p, c) => lights_pref(cmds, i - 1).push(
                Light { position: p, color: c, atten: 3276800 },
            ),
            _ => lights_pref(cmds, i - 1),
        }
    }
}

/// The default orthographic view at the identity frame.
pub open spec fn view0() -> ViewTransform {
    ViewTransform::Ortho(
        OrthoView {
            frame: Frame {
                origin: Vec3 { x: 0, y: 0, z: 0 },
                basis: crate::linear::Basis {
                    axes: (
                        Vec3 { x: FP, y: 0, z: 0 },
                        Vec3 { x: 0, y: FP, z: 0 },
                        Vec3 { x: 0, y: 0, z: FP },
                    ),
                },
            },
        },
    )
}

/// The perspective view a `fov` command sets: eye at the origin looking
/// along the negative third axis, near plane at one world unit.
pub open spec fn persp_of(f: i64) -> ViewTransform {
    ViewTransform::Persp(
        PerspView {
            eye_frame: Frame {
                origin: Vec3 { x: 0, y: 0, z: 0 },
                basis: crate::linear::Basis {
                    axes: (
                        Vec3 { x: FP, y: 0, z: 0 },
                        Vec3 { x: 0, y: FP, z: 0 },
                        Vec3 { x: 0, y: 0, z: (-65536) as i64 },
                    ),
                },
            },
            near: FP,
            fov_degrees: f,
        },
    )
}

/// The view after the first `i` commands: the last `fov` wins.
pub open spec fn view_pref(cmds: Seq<SceneCommand>, i: int) -> ViewTransform
    decreases i,
{
    if i <= 0 {
        view0()
    } else {
        match cmds[i - 1] {
            SceneCommand::Fov(f) => persp_of(f),
            _ => view_pref(cmds, i - 1),
        }
    }
}

/// The object descriptions after the first `i` commands.
pub open spec fn descs_pref(cmds: Seq<SceneCommand>, i: int) -> Seq<ObjDesc>
    decreases i,
{
    if i <= 0 {
        Seq::empty()
    } else {
        let rest = descs_pref(cmds, i - 1);
        match cmds[i - 1] {
            SceneCommand::Sphere(r, c) => rest.push(ObjDesc::Sph(r, c, mat_pref(cmds, i - 1))),
            SceneCommand::Background(col) => rest.push(ObjDesc::Bg(col)),
            SceneCommand::End => rest.push(
                ObjDesc::FaceAt((i - 1) as i64, mat_pref(cmds, i - 1)),
            ),
            _ => rest,
        }
    }
}

/// The material of a `background` object: ambient only.
pub open spec fn bg_mat(col: Color) -> Material {
    Material {
        ambient: col,
        diffuse: Color { r: 0, g: 0, b: 0 },
        specular: Color { r: 0, g: 0, b: 0 },
        phong: FP,
        reflectivity: 0,
        opacity: FP,
        index_of_refraction: FP,
    }
}

/// A stored face agrees with the given vertex list.
pub open spec fn face_matches(f: PolyFace, vs: Seq<Vec3>) -> bool {
    &&& f.vertices@ == vs
    &&& f.centroid@ == crate::sdf::centroid_sp(vs)
    &&& f.normal@ == crate::sdf::face_normal_sp(vs)
    &&& f.epsilon == crate::sdf::face_eps_sp(vs)
    &&& crate::sdf::face_wf(f)
}

/// A built object agrees with its description.
pub open spec fn obj_matches(cmds: Seq<SceneCommand>, d: ObjDesc, o: Sdf) -> bool {
    match d {
        ObjDesc::Sph(r, c, m) => o == Sdf::Shaded(
            Box::new(Sdf::Translate(Box::new(Sdf::Sphere(Sphere { radius: r })), c)),
            m,
        ),
        ObjDesc::Bg(col) => o == Sdf::Shaded(
            Box::new(Sdf::Negation(Box::new(Sdf::Sphere(Sphere { radius: 6553600 })))),
            bg_mat(col),
        ),
        ObjDesc::FaceAt(j, m) => exists|f: PolyFace|
            face_matches(f, verts_pref(cmds, j as int)) && o == Sdf::Shaded(
                Box::new(Sdf::Face(f)),
                m,
            ),
    }
}

/// All built objects agree with the full command list.
pub open spec fn objs_match(cmds: Seq<SceneCommand>, objs: Seq<Sdf>) -> bool {
    &&& objs.len() == descs_pref(cmds, cmds.len() as int).len()
    &&& forall|t: int|
        0 <= t < objs.len() ==> obj_matches(
            cmds,
            descs_pref(cmds, cmds.len() as int)[t],
            #[trigger] objs[t],
        )
}

/// The left fold of the first `i` objects under `Union`; none give the
/// empty field.
pub open spec fn union_fold_pref(objs: Seq<Sdf>, i: int) -> Sdf
    decreases i,
{
    if i <= 0 {
        Sdf::Empty(EmptySDF {  })
    } else if i == 1 {
        objs[0]
    } else {
        Sdf::Union(Box::new(union_fold_pref(objs, i - 1)), Box::new(objs[i - 1]))
    }
}

/// A scene: the CSG tree, the lights, the view, and the far plane.
pub struct Scene {
    pub sdf: Sdf,
    pub lights: Vec<Light>,
    pub view: ViewTransform,
    pub far_plane: i64,
    pub debugging: bool,
}

/// Copy a vertex list.
fn copy_verts(vs: &Vec<Vec3>) -> (r: Vec<Vec3>)
    ensures
        r@ == vs@,
{
    let mut r: Vec<Vec3> = Vec::new();
    let mut i: usize = 0;
    while i < vs.len()
        invariant
            0 <= i <= vs@.len(),
            r@ == vs@.subrange(0, i as int),
        decreases vs@.len() - i,
    {
        r.push(vs[i]);
        i = i + 1;
        proof {
            assert(r@ =~= vs@.subrange(0, i as int));
        }
    }
    proof {
        assert(r@ =~= vs@);
    }
    r
}

/// Fold parsed commands into a scene.
#[verifier::rlimit(100)]
pub fn build_scene(cmds: &Vec<SceneCommand>) -> (s: Scene)
    requires
        cmds@.len() <= 0x10000001,
        forall|j: int| 0 <= j < cmds@.len() ==> cmd_wf(#[trigger] cmds@[j]),
    ensures
        s.lights@ == lights_pref(cmds@, cmds@.len() as int),
        s.view == view_pref(cmds@, cmds@.len() as int),
        s.far_plane == 65536000,
        s.debugging == false,
        exists|objs: Seq<Sdf>|
            objs_match(cmds@, objs) && s.sdf == union_fold_pref(objs, objs.len() as int),
        crate::sdf::wf(s.sdf),
        crate::sdf::max_shift(s.sdf) <= G_MAX,
{
    let n = cmds.len();
    let mut objs: Vec<Sdf> = Vec::new();
    let mut lights: Vec<Light> = Vec::new();
    let mut view = ViewTransform::Ortho(OrthoView { frame: Frame::identity() });
    let mut material = Material::new();
    let mut verts: Vec<Vec3> = Vec::new();
    let mut i: usize = 0;
    proof {
        assert(objs@ =~= Seq::<Sdf>::empty());
        assert(lights@ =~= Seq::<Light>::empty());
        assert(verts@ =~= Seq::<Vec3>::empty());
        assert(descs_pref(cmds@, 0) =~= Seq::<ObjDesc>::empty());
    }
    while i < n
        invariant
            n == cmds@.len(),
            n <= 0x10000001,
            0 <= i <= n,
            forall|j: int| 0 <= j < cmds@.len() ==> cmd_wf(#[trigger] cmds@[j]),
            material == mat_pref(cmds@, i as int),
            verts@ == verts_pref(cmds@, i as int),
            lights@ == lights_pref(cmds@, i as int),
            view == view_pref(cmds@, i as int),
            objs@.len() == descs_pref(cmds@, i as int).len(),
            forall|t: int|
                0 <= t < objs@.len() ==> obj_matches(
                    cmds@,
                    descs_pref(cmds@, i as int)[t],
                    #[trigger] objs@[t],
                ),
            forall|t: int|
                0 <= t < objs@.len() ==> crate::sdf::wf(#[trigger] objs@[t])
                    && crate::sdf::max_shift(objs@[t]) <= G_MAX,
            forall|t: int| 0 <= t < verts@.len() ==> in_box(#[trigger] verts@[t]@, G_MAX as int),
            verts@.len() <= FACE_MAX_VERTS,
        decreases n - i,
    {
        let ghost descs0 = descs_pref(cmds@, i as int);
        let c = cmds[i];
        match c {
            SceneCommand::Fov(f) => {
                view = ViewTransform::Persp(
                    PerspView {
                        eye_frame: Frame::new(
                            Vec3::zero(),
                            Vec3::right(),
                            Vec3::up(),
                            Vec3::backward(),
                        ),
                        near: FP,
                        fov_degrees: f,
                    },
                );
            },
            SceneCommand::Light(p, col) => {
                lights.push(Light::new(p, col, 3276800));
            },
            SceneCommand::Surface(m) => {
                material = m;
            },
            SceneCommand::Sphere(r, centre) => {
                let obj = Sdf::Sphere(Sphere::new(r)).translate(centre).shaded(material);
                objs.push(obj);
                proof {
                    assert(descs_pref(cmds@, i + 1) =~= descs0.push(
                        ObjDesc::Sph(r, centre, mat_pref(cmds@, i as int)),
                    ));
                    assert(obj_matches(
                        cmds@,
                        ObjDesc::Sph(r, centre, mat_pref(cmds@, i as int)),
                        obj,
                    ));
                    let ball = Sdf::Sphere(Sphere { radius: r });
                    let moved = Sdf::Translate(Box::new(ball), centre);
                    assert(crate::sdf::wf(ball) && crate::sdf::max_shift(ball) == 0);
                    assert(crate::sdf::wf(moved) && crate::sdf::max_shift(moved) <= G_MAX);
                    assert(crate::sdf::wf(obj) && crate::sdf::max_shift(obj) <= G_MAX);
                }
            },
            SceneCommand::Background(col) => {
                let mut m = Material::new();
                m.ambient = col;
                m.diffuse = Color::black();
                m.specular = Color::black();
                let obj = Sdf::Sphere(Sphere::new(6553600)).negate().shaded(m);
                objs.push(obj);
                proof {
                    assert(descs_pref(cmds@, i + 1) =~= descs0.push(ObjDesc::Bg(col)));
                    assert(m == bg_mat(col));
                    assert(obj_matches(cmds@, ObjDesc::Bg(col), obj));
                    let ball = Sdf::Sphere(Sphere { radius: 6553600 });
                    let neg = Sdf::Negation(Box::new(ball));
                    assert(crate::sdf::wf(ball) && crate::sdf::max_shift(ball) == 0);
                    assert(crate::sdf::wf(neg) && crate::sdf::max_shift(neg) == 0);
                    assert(crate::sdf::wf(obj) && crate::sdf::max_shift(obj) <= G_MAX);
                }
            },
            SceneCommand::Begin => {
                verts = Vec::new();
                proof {
                    assert(verts@ =~= Seq::<Vec3>::empty());
                }
            },
            SceneCommand::End => {
                let face_verts = copy_verts(&verts);
                let f = PolyFace::new(face_verts);
                let ghost fg = f;
                let obj = Sdf::Face(f).shaded(material);
                objs.push(obj);
                proof {
                    assert(descs_pref(cmds@, i + 1) =~= descs0.push(
                        ObjDesc::FaceAt(i as i64, mat_pref(cmds@, i as int)),
                    ));
                    let dd = ObjDesc::FaceAt(i as i64, mat_pref(cmds@, i as int));
                    assert(face_matches(fg, verts_pref(cmds@, dd->FaceAt_0 as int)));
                    assert(obj == Sdf::Shaded(Box::new(Sdf::Face(fg)), dd->FaceAt_1));
                    assert(obj_matches(cmds@, dd, obj));
                    let fo = Sdf::Face(fg);
                    assert(crate::sdf::wf(fo) && crate::sdf::max_shift(fo) == 0);
                    assert(crate::sdf::wf(obj) && crate::sdf::max_shift(obj) <= G_MAX);
                }
            },
            SceneCommand::Vertex(v) => {
                if verts.len() < FACE_MAX_VERTS {
                    verts.push(v);
                }
            },
            SceneCommand::Write => {},
        }
        i = i + 1;
    }
    let ghost org = objs@;
    let mut acc: Option<Sdf> = None;
    proof {
        assert(org.subrange(0, org.len() as int) =~= org);
    }
    while objs.len() > 0
        invariant
            objs@ == org.subrange(org.len() - objs@.len(), org.len() as int),
            match acc {
                Option::None => org.len() == objs@.len(),
                Option::Some(a) => org.len() > objs@.len() && a == union_fold_pref(
                    org,
                    org.len() - objs@.len(),
                ) && crate::sdf::wf(a) && crate::sdf::max_shift(a) <= G_MAX,
            },
            forall|t: int|
                0 <= t < org.len() ==> crate::sdf::wf(#[trigger] org[t]) && crate::sdf::max_shift(
                    org[t],
                ) <= G_MAX,
        decreases objs@.len(),
    {
        let o = objs.remove(0);
        proof {
            assert(o == org[org.len() - objs@.len() - 1]);
        }
        acc = match acc {
            Option::None => Option::Some(o),
            Option::Some(a) => Option::Some(a.union(o)),
        };
        proof {
            assert(objs@ =~= org.subrange(org.len() - objs@.len(), org.len() as int));
        }
    }
    let sdf = match acc {
        Option::None => Sdf::Empty(EmptySDF {  }),
        Option::Some(a) => a,
    };
    proof {
        assert(objs_match(cmds@, org));
        assert(sdf == union_fold_pref(org, org.len() as int));
    }
    Scene { sdf, lights, view, far_plane: 65536000, debugging: false }
}

/// Parse a scene file: the built scene and the rejected lines.
pub fn scene_parse(src: &str) -> (r: (Scene, Vec<ParseError>))
    requires
        src@.len() < 0x10000000,
    ensures
        ({
            let cmds = res_from(src@, 0, 1).0;
            &&& r.1@ == res_from(src@, 0, 1).1
            &&& r.0.lights@ == lights_pref(cmds, cmds.len() as int)
            &&& r.0.view == view_pref(cmds, cmds.len() as int)
            &&& r.0.far_plane == 65536000
            &&& exists|objs: Seq<Sdf>|
                objs_match(cmds, objs) && r.0.sdf == union_fold_pref(objs, objs.len() as int)
            &&& crate::sdf::wf(r.0.sdf)
            &&& crate::sdf::max_shift(r.0.sdf) <= G_MAX
        }),
{
    proof {
        lemma_res_from_wf(src@, 0, 1);
        lemma_res_from_len(src@, 0, 1);
    }
    let (cmds, errs) = parse_commands(src);
    let scene = build_scene(&cmds);
    (scene, errs)
}

impl Scene {
    /// Parse a scene file into a scene, ignoring rejected lines.
    pub fn parse(src: &str) -> (s: Scene)
        requires
            src@.len() < 0x10000000,
        ensures
            ({
                let cmds = res_from(src@, 0, 1).0;
                &&& s.lights@ == lights_pref(cmds, cmds.len() as int)
                &&& s.view == view_pref(cmds, cmds.len() as int)
                &&& s.far_plane == 65536000
                &&& exists|objs: Seq<Sdf>|
                    objs_match(cmds, objs) && s.sdf == union_fold_pref(objs, objs.len() as int)
                &&& crate::sdf::wf(s.sdf)
                &&& crate::sdf::max_shift(s.sdf) <= G_MAX
            }),
    {
        let (scene, _errs) = scene_parse(src);
        scene
    }
}


/// The normalized device coordinates of a pixel: `u` grows rightward,
/// `v` grows upward while the pixel row grows downward.
pub open spec fn pixel_local(x: int, y: int, w: int, h: int) -> (int, int, int) {
    (tdiv((2 * x - w) * FP, w), tdiv((h - 2 * y) * FP, h), 0)
}

impl Scene {
    /// The primary ray of a pixel.  `fov_tan` is `tan(fov / 2)` for a
    /// perspective view, ignored for an orthographic one.
    pub fn pixel_ray(&self, x: usize, y: usize, width: usize, height: usize, fov_tan: i64) -> (r:
        Ray)
        requires
            view_wf(self.view),
            x < width,
            y < height,
            width <= 0x100000,
            height <= 0x100000,
            0 <= fov_tan <= 0x400000,
        ensures
            ({
                let local = pixel_local(x as int, y as int, width as int, height as int);
                match self.view {
                    ViewTransform::Ortho(o) => r == ortho_ray(o, local),
                    ViewTransform::Persp(p) => r == persp_ray(
                        p,
                        tdiv(fov_tan * p.near, FP as int),
                        local,
                    ),
                }
            }),
    {
        let w = width as i64;
        let h = height as i64;
        let ux = 2 * (x as i64) - w;
        let vy = h - 2 * (y as i64);
        proof {
            lemma_mul_bound(ux as int, FP as int, w as int, FP as int);
            lemma_mul_bound(vy as int, FP as int, h as int, FP as int);
            lemma_tdiv_bound((ux * FP) as int, w as int, FP as int);
            lemma_tdiv_bound((vy * FP) as int, h as int, FP as int);
        }
        let u = div_t((ux as i128) * (FP as i128), w as i128) as i64;
        let v = div_t((vy as i128) * (FP as i128), h as i128) as i64;
        let local = Vec3::new(u, v, 0);
        self.view.project(&local, fov_tan)
    }
}


/// Refraction indices closer than this (about one part in ten thousand
/// of a unit index) are treated as equal.
pub const REFRACT_TOL: i64 = 6;

/// The cosine of the incidence angle at unit scale: the normalized ray
/// against the unit normal.
pub open spec fn refract_cos1(i: (int, int, int), n: (int, int, int)) -> int {
    tdiv(dot_raw(normalize_v(i), n), FP as int)
}

/// The sine of the incidence angle, from its cosine by the Pythagorean
/// identity; never negative.
pub open spec fn refract_sin1(i: (int, int, int), n: (int, int, int)) -> int {
    let c = crate::sdf::clamp1(refract_cos1(i, n), FP as int);
    crate::math::isq((FP * FP - c * c) as nat) as int
}

/// The sine of the outgoing angle by Snell's law, clamped to the unit
/// band; clamping makes total internal reflection pass straight through,
/// as the renderer documents.
pub open spec fn refract_sin2(i: (int, int, int), n: (int, int, int), n1: int, n2: int) -> int {
    crate::sdf::clamp1(tdiv(n1 * refract_sin1(i, n), n2), FP as int)
}

/// The cosine of the outgoing angle; the angle lies in the first
/// quadrant, so it is never negative.
pub open spec fn refract_cos2(i: (int, int, int), n: (int, int, int), n1: int, n2: int) -> int {
    let s2 = refract_sin2(i, n, n1, n2);
    crate::math::isq((FP * FP - s2 * s2) as nat) as int
}

/// The refraction bend of an incoming direction at a surface with unit
/// normal `n`, from index `n1` into `n2`: equal indices and normal
/// incidence pass the ray through; otherwise the signed normal is
/// rotated by the outgoing angle about the shared perpendicular.
pub open spec fn refract_v(i: (int, int, int), n: (int, int, int), n1: int, n2: int) -> (
    int,
    int,
    int,
) {
    if crate::math::sabs(n1 - n2) <= REFRACT_TOL {
        i
    } else {
        let ih = normalize_v(i);
        if crate::math::sabs(crate::math::sabs(refract_cos1(i, n)) - FP) <= REFRACT_TOL {
            ih
        } else {
            let k = normalize_v(crate::linear::cross_v(ih, n));
            let base = if dot_raw(ih, n) >= 0 {
                n
            } else {
                crate::sdf::neg3(n)
            };
            rodrigues_v(base, k, refract_cos2(i, n, n1, n2), refract_sin2(i, n, n1, n2))
        }
    }
}

/// Equal refraction indices bend nothing: the incoming direction comes
/// back unchanged.
pub proof fn lemma_refract_equal_indices(
    i: (int, int, int),
    n: (int, int, int),
    n1: int,
    n2: int,
)
    requires
        crate::math::sabs(n1 - n2) <= REFRACT_TOL,
    ensures
        refract_v(i, n, n1, n2) == i,
{
}

/// Normal incidence bends nothing: the normalized incoming direction
/// comes back.
pub proof fn lemma_refract_normal_incidence(
    i: (int, int, int),
    n: (int, int, int),
    n1: int,
    n2: int,
)
    requires
        crate::math::sabs(n1 - n2) > REFRACT_TOL,
        crate::math::sabs(crate::math::sabs(refract_cos1(i, n)) - FP) <= REFRACT_TOL,
    ensures
        refract_v(i, n, n1, n2) == normalize_v(i),
{
}

/// Snell's law at the constructed sines: away from total internal
/// reflection the outgoing sine is the incoming one scaled by the index
/// ratio, exactly up to the division's remainder.
pub proof fn lemma_refract_snell(i: (int, int, int), n: (int, int, int), n1: int, n2: int)
    requires
        1 <= n1,
        1 <= n2,
        tdiv(n1 * refract_sin1(i, n), n2) <= FP,
    ensures
        refract_sin2(i, n, n1, n2) == tdiv(n1 * refract_sin1(i, n), n2),
        n2 * refract_sin2(i, n, n1, n2) <= n1 * refract_sin1(i, n),
        n1 * refract_sin1(i, n) < n2 * refract_sin2(i, n, n1, n2) + n2,
{
    let s1 = refract_sin1(i, n);
    assert(s1 >= 0);
    assert(n1 * s1 >= 0) by (nonlinear_arith)
        requires
            n1 >= 1,
            s1 >= 0,
    ;
    let q = tdiv(n1 * s1, n2);
    assert(q == n1 * s1 / n2);
    vstd::arithmetic::div_mod::lemma_fundamental_div_mod(n1 * s1, n2);
    vstd::arithmetic::div_mod::lemma_mod_bound(n1 * s1, n2);
    assert(q >= 0) by (nonlinear_arith)
        requires
            n1 * s1 == n2 * q + (n1 * s1) % n2,
            0 <= (n1 * s1) % n2 < n2,
            n1 * s1 >= 0,
            n2 >= 1,
    ;
}

/// Bend an incoming direction at a surface, per `refract_v`.
#[verifier::rlimit(100)]
#[verifier::spinoff_prover]
pub fn refract(incoming: &Vec3, normal: &Vec3, n1: i64, n2: i64) -> (r: Vec3)
    requires
        in_box(incoming@, 0x4000000000000000),
        in_box(normal@, 0x20000),
        1 <= n1 <= G_MAX,
        1 <= n2 <= G_MAX,
    ensures
        r@ == refract_v(incoming@, normal@, n1 as int, n2 as int),
{
    let diff = n1 - n2;
    if -REFRACT_TOL <= diff && diff <= REFRACT_TOL {
        return *incoming;
    }
    let ih = incoming.normalize();
    proof {
        if incoming@ == (0int, 0int, 0int) {
            assert(norm2_raw(incoming@) == 0) by (nonlinear_arith)
                requires
                    incoming@ == (0int, 0int, 0int),
                    norm2_raw(incoming@) == incoming@.0 * incoming@.0 + incoming@.1 * incoming@.1
                        + incoming@.2 * incoming@.2,
            ;
        }
        assert(in_box(ih@, FP as int));
        lemma_mul_bound(ih@.0, normal@.0, FP as int, 0x20000);
        lemma_mul_bound(ih@.1, normal@.1, FP as int, 0x20000);
        lemma_mul_bound(ih@.2, normal@.2, FP as int, 0x20000);
    }
    let dot128 = (ih.x as i128) * (normal.x as i128) + (ih.y as i128) * (normal.y as i128)
        + (ih.z as i128) * (normal.z as i128);
    proof {
        lemma_tdiv_bound(dot128 as int, FP as int, 0x60000);
    }
    let c = div_t(dot128, FP as i128) as i64;
    let ca = if c >= 0 {
        c
    } else {
        -c
    };
    if -REFRACT_TOL <= ca - FP && ca - FP <= REFRACT_TOL {
        return ih;
    }
    let cc = if c > FP {
        FP
    } else if c < -FP {
        -FP
    } else {
        c
    };
    proof {
        lemma_mul_bound(cc as int, cc as int, FP as int, FP as int);
        crate::math::lemma_square_nonneg(cc as int);
        assert((0x10000int + 1) * (0x10000int + 1) == 0x100020001) by (nonlinear_arith);
        assert((FP as int) * (FP as int) == 0x100000000) by (nonlinear_arith)
            requires
                FP == 65536,
        ;
    }
    let s1sq = (FP as i128) * (FP as i128) - (cc as i128) * (cc as i128);
    proof {
        crate::math::lemma_isq_le((s1sq as nat), 0x10000);
    }
    let s1 = crate::math::isqrt(s1sq as u128) as i64;
    proof {
        lemma_mul_bound(n1 as int, s1 as int, G_MAX as int, 0x10001);
        assert((G_MAX as int) * 0x10001 <= 0x20002000000000) by (nonlinear_arith)
            requires
                G_MAX == 0x2000000000,
        ;
        crate::math::lemma_tdiv_shrinks((n1 * s1) as int, n2 as int);
    }
    let q = div_t((n1 as i128) * (s1 as i128), n2 as i128);
    let s2 = if q > FP as i128 {
        FP
    } else if q < -(FP as i128) {
        -FP
    } else {
        q as i64
    };
    proof {
        lemma_mul_bound(s2 as int, s2 as int, FP as int, FP as int);
        crate::math::lemma_square_nonneg(s2 as int);
        assert((0x10000int + 1) * (0x10000int + 1) == 0x100020001) by (nonlinear_arith);
        assert((FP as int) * (FP as int) == 0x100000000) by (nonlinear_arith)
            requires
                FP == 65536,
        ;
    }
    let s2sq = (FP as i128) * (FP as i128) - (s2 as i128) * (s2 as i128);
    proof {
        crate::math::lemma_isq_le((s2sq as nat), 0x10000);
    }
    let c2 = crate::math::isqrt(s2sq as u128) as i64;
    let kr = Vec3::cross(&ih, normal);
    proof {
        lemma_small_cross_box(ih@, normal@);
    }
    let k = kr.normalize();
    proof {
        if kr@ == (0int, 0int, 0int) {
            assert(norm2_raw(kr@) == 0) by (nonlinear_arith)
                requires
                    kr@ == (0int, 0int, 0int),
                    norm2_raw(kr@) == kr@.0 * kr@.0 + kr@.1 * kr@.1 + kr@.2 * kr@.2,
            ;
        }
        assert(in_box(k@, FP as int));
    }
    let base = if dot128 >= 0 {
        *normal
    } else {
        Vec3 { x: -normal.x, y: -normal.y, z: -normal.z }
    };
    rodrigues(&base, &k, c2, s2)
}

/// Rotate `v` about the unit axis `k` by the angle with the given
/// cosine and sine; exactly `rodrigues_v`.
fn rodrigues(v: &Vec3, k: &Vec3, cos: i64, sin: i64) -> (r: Vec3)
    requires
        in_box(v@, 0x20000),
        in_box(k@, FP as int),
        0 <= cos <= FP,
        0 <= sin <= FP,
    ensures
        r@ == rodrigues_v(v@, k@, cos as int, sin as int),
{
    let kxv = Vec3::cross(k, v);
    proof {
        lemma_small_cross_box(k@, v@);
        lemma_mul_bound(k@.0, v@.0, FP as int, 0x20000);
        lemma_mul_bound(k@.1, v@.1, FP as int, 0x20000);
        lemma_mul_bound(k@.2, v@.2, FP as int, 0x20000);
        lemma_tdiv_bound(dot_raw(k@, v@), FP as int, 0x60000);
    }
    let kdv = k.dot(v);
    proof {
        lemma_mul_bound(kdv as int, (FP - cos) as int, 0x60000, FP as int);
        lemma_tdiv_bound((kdv * (FP - cos)) as int, FP as int, 0x60000);
    }
    let t3 = div_t((kdv as i128) * ((FP - cos) as i128), FP as i128) as i64;
    proof {
        lemma_mul_bound(v@.0, cos as int, 0x20000, FP as int);
        lemma_mul_bound(v@.1, cos as int, 0x20000, FP as int);
        lemma_mul_bound(v@.2, cos as int, 0x20000, FP as int);
        lemma_mul_bound(kxv@.0, sin as int, 0x80000, FP as int);
        lemma_mul_bound(kxv@.1, sin as int, 0x80000, FP as int);
        lemma_mul_bound(kxv@.2, sin as int, 0x80000, FP as int);
        lemma_mul_bound(k@.0, t3 as int, FP as int, 0x60000);
        lemma_mul_bound(k@.1, t3 as int, FP as int, 0x60000);
        lemma_mul_bound(k@.2, t3 as int, FP as int, 0x60000);
        lemma_tdiv_bound((v.x * cos) as int, FP as int, 0x20000);
        lemma_tdiv_bound((v.y * cos) as int, FP as int, 0x20000);
        lemma_tdiv_bound((v.z * cos) as int, FP as int, 0x20000);
        lemma_tdiv_bound((kxv.x * sin) as int, FP as int, 0x80000);
        lemma_tdiv_bound((kxv.y * sin) as int, FP as int, 0x80000);
        lemma_tdiv_bound((kxv.z * sin) as int, FP as int, 0x80000);
        lemma_tdiv_bound((k.x * t3) as int, FP as int, 0x60000);
        lemma_tdiv_bound((k.y * t3) as int, FP as int, 0x60000);
        lemma_tdiv_bound((k.z * t3) as int, FP as int, 0x60000);
    }
    let rx = div_t((v.x as i128) * (cos as i128), FP as i128) as i64 + div_t(
        (kxv.x as i128) * (sin as i128),
        FP as i128,
    ) as i64 + div_t((k.x as i128) * (t3 as i128), FP as i128) as i64;
    let ry = div_t((v.y as i128) * (cos as i128), FP as i128) as i64 + div_t(
        (kxv.y as i128) * (sin as i128),
        FP as i128,
    ) as i64 + div_t((k.y as i128) * (t3 as i128), FP as i128) as i64;
    let rz = div_t((v.z as i128) * (cos as i128), FP as i128) as i64 + div_t(
        (kxv.z as i128) * (sin as i128),
        FP as i128,
    ) as i64 + div_t((k.z as i128) * (t3 as i128), FP as i128) as i64;
    Vec3 { x: rx, y: ry, z: rz }
}

/// The cross product of two near-unit vectors stays small.
proof fn lemma_small_cross_box(a: (int, int, int), b: (int, int, int))
    requires
        in_box(a, 0x20000),
        in_box(b, 0x20000),
    ensures
        in_box(crate::linear::cross_v(a, b), 0x80000),
{
    lemma_mul_bound(a.1, b.2, 0x20000, 0x20000);
    lemma_mul_bound(a.2, b.1, 0x20000, 0x20000);
    lemma_mul_bound(a.2, b.0, 0x20000, 0x20000);
    lemma_mul_bound(a.0, b.2, 0x20000, 0x20000);
    lemma_mul_bound(a.0, b.1, 0x20000, 0x20000);
    lemma_mul_bound(a.1, b.0, 0x20000, 0x20000);
    lemma_tdiv_bound(a.1 * b.2 - a.2 * b.1, FP as int, 0x80000);
    lemma_tdiv_bound(a.2 * b.0 - a.0 * b.2, FP as int, 0x80000);
    lemma_tdiv_bound(a.0 * b.1 - a.1 * b.0, FP as int, 0x80000);
}

} // verus!
