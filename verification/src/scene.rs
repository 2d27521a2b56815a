//! The scene-description grammar.
//!
//! A scene is line-oriented text. A line is blank (no tokens), a comment
//! (first byte `#`), or a directive: a keyword followed by numeric
//! arguments, separated by spaces or tabs.
//!
//! - `camera LFx LFy LFz LAx LAy LAz FOV APERTURE`
//! - `background R G B`
//! - `diffuse R G B` — sets the current material
//! - `metal R G B FUZZ` — sets the current material
//! - `sphere Cx Cy Cz RADIUS` — uses the current material
//!
//! A number is an optional minus sign, digits, and an optional fraction:
//! `-?[0-9]+(.[0-9]+)?`. Parsing validates the shape and keeps the tokens
//! as written; turning them into machine floats is the caller's business.
//! The first offending line or token yields a `WorldParseError`.

use vstd::prelude::*;
use vstd::string::StringExecFns;
use crate::errors::SpriosError;

verus! {

/// Token separators: space, tab, and carriage return (so that lines of
/// files with CRLF endings carry no stray byte).
pub open spec fn is_space(b: u8) -> bool {
    b == 32 || b == 9 || b == 13
}

pub open spec fn is_digit(b: u8) -> bool {
    48 <= b <= 57
}

pub open spec fn all_digits(s: Seq<u8>) -> bool {
    forall|i: int| 0 <= i < s.len() ==> is_digit(#[trigger] s[i])
}

/// An unsigned number: digits, or digits on both sides of one point.
pub open spec fn is_unsigned_number(s: Seq<u8>) -> bool {
    ||| (s.len() > 0 && all_digits(s))
    ||| (exists|p: int|
        1 <= p < s.len() - 1 && #[trigger] s[p] == 46 && all_digits(s.take(p)) && all_digits(
            s.skip(p + 1),
        ))
}

/// A number token: an optional minus sign before an unsigned number.
pub open spec fn is_number(s: Seq<u8>) -> bool {
    if s.len() > 0 && s[0] == 45 {
        is_unsigned_number(s.skip(1))
    } else {
        is_unsigned_number(s)
    }
}

/// Splitting a byte sequence at separators, with `cur` the token read so
/// far: the list of maximal nonempty separator-free runs.
pub open spec fn spec_split_tokens(s: Seq<u8>, cur: Seq<u8>) -> Seq<Seq<u8>>
    decreases s.len(),
{
    if s.len() == 0 {
        if cur.len() == 0 {
            Seq::empty()
        } else {
            seq![cur]
        }
    } else if is_space(s[0]) {
        if cur.len() == 0 {
            spec_split_tokens(s.skip(1), cur)
        } else {
            seq![cur] + spec_split_tokens(s.skip(1), Seq::empty())
        }
    } else {
        spec_split_tokens(s.skip(1), cur.push(s[0]))
    }
}

/// The tokens of one line.
pub open spec fn spec_tokens(s: Seq<u8>) -> Seq<Seq<u8>> {
    spec_split_tokens(s, Seq::empty())
}

/// Splitting a text at newlines, with `cur` the line read so far. Every
/// segment counts, so a trailing newline yields a final empty line.
pub open spec fn spec_split_lines(s: Seq<u8>, cur: Seq<u8>) -> Seq<Seq<u8>>
    decreases s.len(),
{
    if s.len() == 0 {
        seq![cur]
    } else if s[0] == 10 {
        seq![cur] + spec_split_lines(s.skip(1), Seq::empty())
    } else {
        spec_split_lines(s.skip(1), cur.push(s[0]))
    }
}

/// The lines of a scene text.
pub open spec fn spec_lines(s: Seq<u8>) -> Seq<Seq<u8>> {
    spec_split_lines(s, Seq::empty())
}

pub open spec fn kw_camera() -> Seq<u8> {
    seq!['c' as u8, 'a' as u8, 'm' as u8, 'e' as u8, 'r' as u8, 'a' as u8]
}

pub open spec fn kw_background() -> Seq<u8> {
    seq![
        'b' as u8,
        'a' as u8,
        'c' as u8,
        'k' as u8,
        'g' as u8,
        'r' as u8,
        'o' as u8,
        'u' as u8,
        'n' as u8,
        'd' as u8,
    ]
}

pub open spec fn kw_diffuse() -> Seq<u8> {
    seq!['d' as u8, 'i' as u8, 'f' as u8, 'f' as u8, 'u' as u8, 's' as u8, 'e' as u8]
}

pub open spec fn kw_metal() -> Seq<u8> {
    seq!['m' as u8, 'e' as u8, 't' as u8, 'a' as u8, 'l' as u8]
}

pub open spec fn kw_sphere() -> Seq<u8> {
    seq!['s' as u8, 'p' as u8, 'h' as u8, 'e' as u8, 'r' as u8, 'e' as u8]
}

/// How many numeric arguments the keyword's directive takes; negative
/// for an unknown keyword.
pub open spec fn spec_arity(kw: Seq<u8>) -> int {
    if kw == kw_camera() {
        8
    } else if kw == kw_background() {
        3
    } else if kw == kw_diffuse() {
        3
    } else if kw == kw_metal() {
        4
    } else if kw == kw_sphere() {
        4
    } else {
        -1
    }
}

/// A line that contributes nothing: no tokens, or a comment.
pub open spec fn spec_line_skipped(line: Seq<u8>) -> bool {
    (line.len() > 0 && line[0] == 35) || spec_tokens(line).len() == 0
}

/// A token list that forms a directive: a known keyword, its arity, and
/// number-shaped arguments.
pub open spec fn spec_line_parses(toks: Seq<Seq<u8>>) -> bool {
    &&& toks.len() >= 1
    &&& spec_arity(toks[0]) >= 0
    &&& toks.len() == spec_arity(toks[0]) + 1
    &&& forall|k: int| 1 <= k < toks.len() ==> is_number(#[trigger] toks[k])
}

/// A text parses when every line is blank, a comment, or a directive.
pub open spec fn spec_scene_ok(src: Seq<u8>) -> bool {
    forall|i: int|
        0 <= i < spec_lines(src).len() ==> spec_line_skipped(#[trigger] spec_lines(src)[i])
            || spec_line_parses(spec_tokens(spec_lines(src)[i]))
}

/// The token lists of the directive lines, in order.
pub open spec fn spec_scene_items(ls: Seq<Seq<u8>>) -> Seq<Seq<Seq<u8>>>
    decreases ls.len(),
{
    if ls.len() == 0 {
        Seq::empty()
    } else if spec_line_skipped(ls[0]) {
        spec_scene_items(ls.skip(1))
    } else {
        seq![spec_tokens(ls[0])] + spec_scene_items(ls.skip(1))
    }
}

/// One directive of a scene, with its numeric arguments as written.
#[derive(Debug)]
pub enum SceneItem {
    /// look-from x y z, look-at x y z, vertical fov, aperture.
    CameraItem { args: Vec<Vec<u8>> },
    /// background color r g b.
    BackgroundItem { args: Vec<Vec<u8>> },
    /// diffuse material albedo r g b; becomes the current material.
    DiffuseItem { args: Vec<Vec<u8>> },
    /// metal material albedo r g b and fuzz; becomes the current material.
    MetalItem { args: Vec<Vec<u8>> },
    /// sphere center x y z and radius, using the current material.
    SphereItem { args: Vec<Vec<u8>> },
}

impl SceneItem {
    /// The token list this directive was read from.
    pub open spec fn tokens(self) -> Seq<Seq<u8>> {
        match self {
            SceneItem::CameraItem { args } => seq![kw_camera()] + args.deep_view(),
            SceneItem::BackgroundItem { args } => seq![kw_background()] + args.deep_view(),
            SceneItem::DiffuseItem { args } => seq![kw_diffuse()] + args.deep_view(),
            SceneItem::MetalItem { args } => seq![kw_metal()] + args.deep_view(),
            SceneItem::SphereItem { args } => seq![kw_sphere()] + args.deep_view(),
        }
    }
}

/// Bytes that are all ASCII.
pub open spec fn is_ascii_seq(b: Seq<u8>) -> bool {
    forall|i: int| 0 <= i < b.len() ==> (#[trigger] b[i]) < 128
}

/// ASCII bytes read as the characters of the same codes.
pub open spec fn ascii_chars(b: Seq<u8>) -> Seq<char> {
    b.map(|i: int, c: u8| c as char)
}

/// Relies on `String::from_utf8_lossy`: bytes that are all ASCII are
/// valid UTF-8 and map to the string of the same character codes.
#[verifier::external_body]
fn lossy_string(b: &Vec<u8>) -> (r: String)
    ensures
        is_ascii_seq(b@) ==> r@ == ascii_chars(b@),
{
    String::from_utf8_lossy(b).into_owned()
}

/// A parse error whose message is the given note followed by the
/// offending token (as far as the token is ASCII).
fn err_with_token(note: &str, tok: &Vec<u8>) -> (r: SpriosError)
    ensures
        r is WorldParseError,
        is_ascii_seq(tok@) ==> r.spec_message() == note@ + ascii_chars(tok@),
{
    let mut m = String::from_str(note);
    let t = lossy_string(tok);
    m.append(t.as_str());
    SpriosError::WorldParseError(m)
}

/// The position of the first token from `k` on that is no number; the
/// length when all are.
pub open spec fn first_non_number(toks: Seq<Seq<u8>>, k: int) -> int
    decreases toks.len() - k,
{
    if k < 0 || k >= toks.len() {
        k
    } else if is_number(toks[k]) {
        first_non_number(toks, k + 1)
    } else {
        k
    }
}

/// The token a failed directive line is rejected for: its keyword when
/// that keyword or the argument count is wrong, else its first
/// non-number argument.
pub open spec fn spec_offending_token(tks: Seq<Seq<u8>>) -> Seq<u8> {
    if spec_arity(tks[0]) < 0 {
        tks[0]
    } else if tks.len() != spec_arity(tks[0]) + 1 {
        tks[0]
    } else {
        tks[first_non_number(tks, 1)]
    }
}

/// The message a failed directive line yields: a note for the kind of
/// failure, followed by the offending token.
pub open spec fn spec_line_error(tks: Seq<Seq<u8>>) -> Seq<char> {
    if spec_arity(tks[0]) < 0 {
        "unknown scene directive: "@ + ascii_chars(tks[0])
    } else if tks.len() != spec_arity(tks[0]) + 1 {
        "wrong number of arguments for: "@ + ascii_chars(tks[0])
    } else {
        "not a number: "@ + ascii_chars(tks[first_non_number(tks, 1)])
    }
}

/// Where a parse failed: every line before `i` is in order, line `i` is
/// neither blank, comment nor directive, and — as far as the offending
/// token is ASCII — the error's message names that token.
pub open spec fn spec_error_at(src: Seq<u8>, i: int, e: SpriosError) -> bool {
    let ls = spec_lines(src);
    &&& 0 <= i < ls.len()
    &&& forall|j: int|
        0 <= j < i ==> spec_line_skipped(#[trigger] ls[j]) || spec_line_parses(
            spec_tokens(ls[j]),
        )
    &&& !spec_line_skipped(ls[i])
    &&& !spec_line_parses(spec_tokens(ls[i]))
    &&& is_ascii_seq(spec_offending_token(spec_tokens(ls[i]))) ==> e.spec_message()
        == spec_line_error(spec_tokens(ls[i]))
}

/// What a parse error reports: some line failed, every line before it
/// was in order, and the message names that line's offending token.
pub open spec fn spec_parse_error(src: Seq<u8>, e: SpriosError) -> bool {
    exists|i: int| #[trigger] spec_error_at(src, i, e)
}

/// A run of numbers from `a` up to a non-number at `b` puts the first
/// non-number at `b`.
proof fn lemma_first_non_number(toks: Seq<Seq<u8>>, a: int, b: int)
    requires
        0 <= a <= b < toks.len(),
        forall|j: int| a <= j < b ==> is_number(#[trigger] toks[j]),
        !is_number(toks[b]),
    ensures
        first_non_number(toks, a) == b,
    decreases b - a,
{
    if a < b {
        lemma_first_non_number(toks, a + 1, b);
    }
}

/// Whether two byte tokens are equal.
fn token_is(t: &Vec<u8>, kw: &Vec<u8>) -> (r: bool)
    ensures
        r == (t@ == kw@),
{
    if t.len() != kw.len() {
        return false;
    }
    let n = t.len();
    let mut i: usize = 0;
    while i < n
        invariant
            0 <= i <= n,
            n == t@.len() == kw@.len(),
            forall|j: int| 0 <= j < i ==> t@[j] == kw@[j],
        decreases n - i,
    {
        if t[i] != kw[i] {
            return false;
        }
        i = i + 1;
    }
    proof {
        assert(t@ =~= kw@);
    }
    true
}

/// Scans digits from `from`; the first non-digit position, or the end.
fn scan_digits(t: &Vec<u8>, from: usize) -> (r: usize)
    requires
        from <= t@.len(),
    ensures
        from <= r <= t@.len(),
        forall|j: int| from <= j < r ==> is_digit(#[trigger] t@[j]),
        r < t@.len() ==> !is_digit(t@[r as int]),
{
    let n = t.len();
    let mut i = from;
    while i < n
        invariant
            from <= i <= n,
            n == t@.len(),
            forall|j: int| from <= j < i ==> is_digit(#[trigger] t@[j]),
        decreases n - i,
    {
        let b = t[i];
        if b < 48 || b > 57 {
            return i;
        }
        i = i + 1;
    }
    i
}

/// Whether the token has the grammar's number shape.
pub fn is_number_token(t: &Vec<u8>) -> (r: bool)
    ensures
        r == is_number(t@),
{
    let n = t.len();
    let start: usize = if n > 0 && t[0] == 45 {
        1
    } else {
        0
    };
    let ghost s = t@.skip(start as int);
    proof {
        if start == 0 {
            assert(s =~= t@);
        }
    }
    if n == start {
        assert(!is_unsigned_number(s));
        return false;
    }
    let j = scan_digits(t, start);
    if j == start {
        proof {
            assert(s[0] == t@[start as int]);
            if is_unsigned_number(s) {
                if s.len() > 0 && all_digits(s) {
                    assert(is_digit(s[0]));
                } else {
                    let p = choose|p: int|
                        1 <= p < s.len() - 1 && #[trigger] s[p] == 46 && all_digits(s.take(p))
                            && all_digits(s.skip(p + 1));
                    assert(s.take(p)[0] == s[0]);
                    assert(is_digit(s[0]));
                }
            }
        }
        return false;
    }
    if j == n {
        proof {
            assert forall|i: int| 0 <= i < s.len() implies is_digit(#[trigger] s[i]) by {
                assert(s[i] == t@[start + i]);
            }
        }
        return true;
    }
    if t[j] != 46 {
        proof {
            lemma_dotless_shape(t@, start as int, j as int);
        }
        return false;
    }
    let k = scan_digits(t, j + 1);
    if k == j + 1 {
        proof {
            lemma_dot_needs_digits(t@, start as int, j as int);
        }
        return false;
    }
    if k == n {
        proof {
            let p = j - start;
            assert forall|i: int| 0 <= i < s.take(p).len() implies is_digit(
                #[trigger] s.take(p)[i],
            ) by {
                assert(s.take(p)[i] == t@[start + i]);
            }
            assert forall|i: int| 0 <= i < s.skip(p + 1).len() implies is_digit(
                #[trigger] s.skip(p + 1)[i],
            ) by {
                assert(s.skip(p + 1)[i] == t@[j + 1 + i]);
            }
            assert(s[p] == 46);
            assert(1 <= p < s.len() - 1);
            assert(is_unsigned_number(s));
        }
        return true;
    }
    proof {
        lemma_trailing_garbage(t@, start as int, j as int, k as int);
    }
    false
}

/// A token whose digit run ends before its end at a byte that is no
/// point has no number shape.
proof fn lemma_dotless_shape(t: Seq<u8>, start: int, j: int)
    requires
        0 <= start < j < t.len(),
        forall|i: int| start <= i < j ==> is_digit(#[trigger] t[i]),
        !is_digit(t[j]),
        t[j] != 46,
    ensures
        !is_unsigned_number(t.skip(start)),
{
    let s = t.skip(start);
    if is_unsigned_number(s) {
        if all_digits(s) {
            assert(s[j - start] == t[j]);
        } else {
            let p = choose|p: int|
                1 <= p < s.len() - 1 && #[trigger] s[p] == 46 && all_digits(s.take(p))
                    && all_digits(s.skip(p + 1));
            assert(s[p] == t[start + p]);
            if start + p < j {
                assert(is_digit(t[start + p]));
            } else if start + p == j {
                assert(t[j] == 46);
            } else {
                assert(s.take(p)[j - start] == t[j]);
                assert(is_digit(t[j]));
            }
        }
    }
}

/// A point followed by no digit ends the number shape.
proof fn lemma_dot_needs_digits(t: Seq<u8>, start: int, j: int)
    requires
        0 <= start < j < t.len(),
        forall|i: int| start <= i < j ==> is_digit(#[trigger] t[i]),
        !is_digit(t[j]),
        t[j] == 46,
        j + 1 < t.len() ==> !is_digit(t[j + 1]),
    ensures
        !is_unsigned_number(t.skip(start)),
{
    let s = t.skip(start);
    if is_unsigned_number(s) {
        if all_digits(s) {
            assert(s[j - start] == t[j]);
        } else {
            let p = choose|p: int|
                1 <= p < s.len() - 1 && #[trigger] s[p] == 46 && all_digits(s.take(p))
                    && all_digits(s.skip(p + 1));
            assert(s[p] == t[start + p]);
            if start + p < j {
                assert(is_digit(t[start + p]));
            } else if start + p > j {
                assert(s.take(p)[j - start] == t[j]);
                assert(is_digit(t[j]));
            } else {
                assert(s.skip(p + 1)[0] == t[j + 1]);
                assert(is_digit(t[j + 1]));
            }
        }
    }
}

/// Bytes after the fraction's digit run end the number shape.
proof fn lemma_trailing_garbage(t: Seq<u8>, start: int, j: int, k: int)
    requires
        0 <= start < j < t.len(),
        j + 1 <= k < t.len(),
        forall|i: int| start <= i < j ==> is_digit(#[trigger] t[i]),
        !is_digit(t[j]),
        t[j] == 46,
        forall|i: int| j + 1 <= i < k ==> is_digit(#[trigger] t[i]),
        !is_digit(t[k]),
    ensures
        !is_unsigned_number(t.skip(start)),
{
    let s = t.skip(start);
    if is_unsigned_number(s) {
        if all_digits(s) {
            assert(s[j - start] == t[j]);
        } else {
            let p = choose|p: int|
                1 <= p < s.len() - 1 && #[trigger] s[p] == 46 && all_digits(s.take(p))
                    && all_digits(s.skip(p + 1));
            assert(s[p] == t[start + p]);
            if start + p < j {
                assert(is_digit(t[start + p]));
            } else if start + p > j {
                assert(s.take(p)[j - start] == t[j]);
                assert(is_digit(t[j]));
            } else {
                assert(s.skip(p + 1)[k - j - 1] == t[k]);
                assert(is_digit(t[k]));
            }
        }
    }
}

/// Splits one line into its tokens.
#[verifier::loop_isolation(false)]
fn tokenize(line: &Vec<u8>) -> (r: Vec<Vec<u8>>)
    ensures
        r.deep_view() == spec_tokens(line@),
{
    let n = line.len();
    let mut out: Vec<Vec<u8>> = Vec::new();
    let mut cur: Vec<u8> = Vec::new();
    let mut i: usize = 0;
    proof {
        assert(line@.skip(0) =~= line@);
        assert(out.deep_view() =~~= Seq::<Seq<u8>>::empty());
        assert(out.deep_view() + spec_split_tokens(line@.skip(0), cur@) =~~= spec_tokens(
            line@,
        ));
    }
    while i < n
        invariant
            0 <= i <= n,
            spec_tokens(line@) == out.deep_view() + spec_split_tokens(
                line@.skip(i as int),
                cur@,
            ),
        decreases n - i,
    {
        let ghost pre_out = out.deep_view();
        let ghost pre_cur = cur@;
        let ghost rest = line@.skip(i as int);
        proof {
            assert(rest[0] == line@[i as int]);
            assert(rest.skip(1) =~= line@.skip(i as int + 1));
        }
        let b = line[i];
        if b == 32 || b == 9 || b == 13 {
            if cur.len() > 0 {
                out.push(cur);
                cur = Vec::new();
                proof {
                    assert(out.deep_view() =~~= pre_out.push(pre_cur));
                    assert(out.deep_view() + spec_split_tokens(line@.skip(i as int + 1), cur@)
                        =~~= pre_out + (seq![pre_cur] + spec_split_tokens(
                        line@.skip(i as int + 1),
                        Seq::empty(),
                    )));
                }
            }
        } else {
            cur.push(b);
            proof {
                assert(cur@ =~= pre_cur.push(line@[i as int]));
            }
        }
        i = i + 1;
    }
    proof {
        assert(line@.skip(n as int) =~= Seq::<u8>::empty());
    }
    if cur.len() > 0 {
        let ghost pre_out = out.deep_view();
        let ghost pre_cur = cur@;
        out.push(cur);
        proof {
            assert(out.deep_view() =~~= pre_out.push(pre_cur));
            assert(pre_out + seq![pre_cur] =~~= pre_out.push(pre_cur));
        }
    } else {
        proof {
            assert(out.deep_view() + Seq::<Seq<u8>>::empty() =~~= out.deep_view());
        }
    }
    out
}

/// Splits a scene text into its lines.
#[verifier::loop_isolation(false)]
fn split_lines(src: &Vec<u8>) -> (r: Vec<Vec<u8>>)
    ensures
        r.deep_view() == spec_lines(src@),
{
    let n = src.len();
    let mut out: Vec<Vec<u8>> = Vec::new();
    let mut cur: Vec<u8> = Vec::new();
    let mut i: usize = 0;
    proof {
        assert(src@.skip(0) =~= src@);
        assert(out.deep_view() =~~= Seq::<Seq<u8>>::empty());
        assert(out.deep_view() + spec_split_lines(src@.skip(0), cur@) =~~= spec_lines(src@));
    }
    while i < n
        invariant
            0 <= i <= n,
            spec_lines(src@) == out.deep_view() + spec_split_lines(src@.skip(i as int), cur@),
        decreases n - i,
    {
        let ghost pre_out = out.deep_view();
        let ghost pre_cur = cur@;
        let ghost rest = src@.skip(i as int);
        proof {
            assert(rest[0] == src@[i as int]);
            assert(rest.skip(1) =~= src@.skip(i as int + 1));
        }
        let b = src[i];
        if b == 10 {
            out.push(cur);
            cur = Vec::new();
            proof {
                assert(out.deep_view() =~~= pre_out.push(pre_cur));
                assert(out.deep_view() + spec_split_lines(src@.skip(i as int + 1), cur@)
                    =~~= pre_out + (seq![pre_cur] + spec_split_lines(
                    src@.skip(i as int + 1),
                    Seq::empty(),
                )));
            }
        } else {
            cur.push(b);
            proof {
                assert(cur@ =~= pre_cur.push(src@[i as int]));
            }
        }
        i = i + 1;
    }
    proof {
        assert(src@.skip(n as int) =~= Seq::<u8>::empty());
    }
    let ghost pre_out = out.deep_view();
    let ghost pre_cur = cur@;
    out.push(cur);
    proof {
        assert(out.deep_view() =~~= pre_out.push(pre_cur));
        assert(pre_out + seq![pre_cur] =~~= pre_out.push(pre_cur));
    }
    out
}

/// Parses a scene text into its directives, in order. `Ok` exactly when
/// every line is blank, a comment, or a well-formed directive; the
/// directives carry their argument tokens as written. Otherwise the
/// error's message names the first offending token.
#[verifier::loop_isolation(false)]
pub fn parse_scene(src: &Vec<u8>) -> (r: Result<Vec<SceneItem>, SpriosError>)
    ensures
        r is Ok <==> spec_scene_ok(src@),
        r matches Ok(items) ==> items@.map_values(|it: SceneItem| it.tokens())
            == spec_scene_items(spec_lines(src@)),
        r matches Err(e) ==> spec_parse_error(src@, e),
{
    let lines = split_lines(src);
    let ghost ls = spec_lines(src@);
    let n = lines.len();
    let mut out: Vec<SceneItem> = Vec::new();
    let mut i: usize = 0;
    proof {
        assert(ls.skip(0) =~~= ls);
        assert(out@.map_values(|it: SceneItem| it.tokens()) =~~= Seq::<Seq<Seq<u8>>>::empty());
        assert(out@.map_values(|it: SceneItem| it.tokens()) + spec_scene_items(ls.skip(0))
            =~~= spec_scene_items(ls));
    }
    while i < n
        invariant
            0 <= i <= n,
            forall|k: int|
                0 <= k < i ==> spec_line_skipped(#[trigger] ls[k]) || spec_line_parses(
                    spec_tokens(ls[k]),
                ),
            spec_scene_items(ls) == out@.map_values(|it: SceneItem| it.tokens())
                + spec_scene_items(ls.skip(i as int)),
        decreases n - i,
    {
        let ghost pre_items = out@.map_values(|it: SceneItem| it.tokens());
        proof {
            assert(ls.skip(i as int)[0] == ls[i as int]);
            assert(ls.skip(i as int).skip(1) =~~= ls.skip(i as int + 1));
            assert(lines@[i as int].deep_view() =~= lines@[i as int]@);
            assert(lines@[i as int]@ == ls[i as int]);
        }
        let line = &lines[i];
        if line.len() > 0 && line[0] == 35 {
            proof {
                assert(spec_line_skipped(ls[i as int]));
                assert(spec_scene_items(ls.skip(i as int)) == spec_scene_items(
                    ls.skip(i as int + 1),
                ));
            }
            i = i + 1;
            continue;
        }
        let toks_all = tokenize(line);
        let ghost tks = spec_tokens(ls[i as int]);
        proof {
            assert(toks_all.deep_view() == tks);
        }
        if toks_all.len() == 0 {
            proof {
                assert(tks.len() == 0);
                assert(spec_line_skipped(ls[i as int]));
                assert(spec_scene_items(ls.skip(i as int)) == spec_scene_items(
                    ls.skip(i as int + 1),
                ));
            }
            i = i + 1;
            continue;
        }
        proof {
            assert(tks.len() > 0);
            assert(!spec_line_skipped(ls[i as int]));
            assert(spec_scene_items(ls.skip(i as int)) == seq![tks] + spec_scene_items(
                ls.skip(i as int + 1),
            ));
        }
        let mut toks = toks_all;
        let ghost pre_toks = toks@;
        let kw = toks.remove(0);
        proof {
            assert(kw@ == pre_toks[0]@);
            assert(kw@ =~= pre_toks[0].deep_view());
            assert(kw@ == tks[0]);
            assert(toks.deep_view() =~~= tks.skip(1));
        }
        let arity: usize;
        let tag: u8;
        if token_is(&kw, &kw_camera_vec()) {
            arity = 8;
            tag = 0;
        } else if token_is(&kw, &kw_background_vec()) {
            arity = 3;
            tag = 1;
        } else if token_is(&kw, &kw_diffuse_vec()) {
            arity = 3;
            tag = 2;
        } else if token_is(&kw, &kw_metal_vec()) {
            arity = 4;
            tag = 3;
        } else if token_is(&kw, &kw_sphere_vec()) {
            arity = 4;
            tag = 4;
        } else {
            let e = err_with_token("unknown scene directive: ", &kw);
            proof {
                assert(spec_arity(tks[0]) == -1);
                assert(!spec_line_parses(tks));
                assert(!spec_scene_ok(src@));
                assert(spec_offending_token(tks) == tks[0]);
                assert(spec_error_at(src@, i as int, e));
                assert(spec_parse_error(src@, e));
            }
            return Err(e);
        }
        proof {
            assert(spec_arity(tks[0]) == arity);
        }
        if toks.len() != arity {
            let e = err_with_token("wrong number of arguments for: ", &kw);
            proof {
                assert(tks.len() == toks@.len() + 1);
                assert(tks.len() != spec_arity(tks[0]) + 1);
                assert(!spec_line_parses(tks));
                assert(!spec_scene_ok(src@));
                assert(spec_offending_token(tks) == tks[0]);
                assert(spec_error_at(src@, i as int, e));
                assert(spec_parse_error(src@, e));
            }
            return Err(e);
        }
        let mut k: usize = 0;
        while k < arity
            invariant
                0 <= k <= arity,
                forall|j: int| 1 <= j <= k ==> is_number(#[trigger] tks[j]),
            decreases arity - k,
        {
            proof {
                assert(toks@[k as int].deep_view() == tks.skip(1)[k as int]);
                assert(tks.skip(1)[k as int] == tks[k as int + 1]);
                assert(toks@[k as int]@ =~= toks@[k as int].deep_view());
            }
            if !is_number_token(&toks[k]) {
                let e = err_with_token("not a number: ", &toks[k]);
                proof {
                    assert(!is_number(tks[k as int + 1]));
                    assert(!spec_line_parses(tks));
                    assert(!spec_scene_ok(src@));
                    lemma_first_non_number(tks, 1, k as int + 1);
                    assert(spec_offending_token(tks) == tks[k as int + 1]);
                    assert(spec_error_at(src@, i as int, e));
                    assert(spec_parse_error(src@, e));
                }
                return Err(e);
            }
            k = k + 1;
        }
        proof {
            assert(spec_line_parses(tks));
        }
        let item: SceneItem = if tag == 0 {
            SceneItem::CameraItem { args: toks }
        } else if tag == 1 {
            SceneItem::BackgroundItem { args: toks }
        } else if tag == 2 {
            SceneItem::DiffuseItem { args: toks }
        } else if tag == 3 {
            SceneItem::MetalItem { args: toks }
        } else {
            SceneItem::SphereItem { args: toks }
        };
        proof {
            assert(item.tokens() =~~= tks);
        }
        out.push(item);
        proof {
            assert(out@.map_values(|it: SceneItem| it.tokens()) =~~= pre_items.push(tks));
            assert(pre_items + (seq![tks] + spec_scene_items(ls.skip(i as int + 1)))
                =~~= pre_items.push(tks) + spec_scene_items(ls.skip(i as int + 1)));
        }
        i = i + 1;
    }
    proof {
        assert(ls.skip(n as int) =~~= Seq::<Seq<u8>>::empty());
        assert(spec_scene_items(ls.skip(n as int)) =~~= Seq::<Seq<Seq<u8>>>::empty());
        assert(out@.map_values(|it: SceneItem| it.tokens()) + Seq::<Seq<Seq<u8>>>::empty()
            =~~= out@.map_values(|it: SceneItem| it.tokens()));
        assert(spec_scene_ok(src@));
    }
    Ok(out)
}

/// A material directive, as it applies to a later sphere.
pub enum MaterialDesc {
    /// diffuse albedo r g b.
    DiffuseDesc { args: Vec<Vec<u8>> },
    /// metal albedo r g b and fuzz.
    MetalDesc { args: Vec<Vec<u8>> },
}

/// One sphere of the scene with the material directive in force when it
/// was declared: an index into `SceneDesc::materials`, or `None` for the
/// default material when no directive came before the sphere.
pub struct SphereDesc {
    /// center x y z and radius.
    pub center_radius: Vec<Vec<u8>>,
    pub material: Option<usize>,
}

/// A whole scene, resolved: the camera and background that win (the last
/// of their directives), the material directives in order, and each
/// sphere paired with the material in force when it was declared.
pub struct SceneDesc {
    pub camera: Option<Vec<Vec<u8>>>,
    pub background: Option<Vec<Vec<u8>>>,
    pub materials: Vec<MaterialDesc>,
    pub spheres: Vec<SphereDesc>,
}

/// The last camera directive's arguments, if any.
pub open spec fn spec_last_camera(items: Seq<SceneItem>) -> Option<Vec<Vec<u8>>>
    decreases items.len(),
{
    if items.len() == 0 {
        None
    } else {
        let rest = spec_last_camera(items.skip(1));
        if rest is Some {
            rest
        } else {
            match items[0] {
                SceneItem::CameraItem { args } => Some(args),
                _ => None,
            }
        }
    }
}

/// The last background directive's arguments, if any.
pub open spec fn spec_last_background(items: Seq<SceneItem>) -> Option<Vec<Vec<u8>>>
    decreases items.len(),
{
    if items.len() == 0 {
        None
    } else {
        let rest = spec_last_background(items.skip(1));
        if rest is Some {
            rest
        } else {
            match items[0] {
                SceneItem::BackgroundItem { args } => Some(args),
                _ => None,
            }
        }
    }
}

/// The material directives of the scene, in declaration order.
pub open spec fn spec_materials(items: Seq<SceneItem>) -> Seq<MaterialDesc>
    decreases items.len(),
{
    if items.len() == 0 {
        Seq::empty()
    } else {
        let rest = spec_materials(items.skip(1));
        match items[0] {
            SceneItem::DiffuseItem { args } => seq![MaterialDesc::DiffuseDesc { args }] + rest,
            SceneItem::MetalItem { args } => seq![MaterialDesc::MetalDesc { args }] + rest,
            _ => rest,
        }
    }
}

/// The spheres of the scene in order, each with the index of the
/// material directive in force: a diffuse or metal directive becomes the
/// current material, and every later sphere uses it until the next such
/// directive replaces it. `seen` counts the directives already passed.
pub open spec fn spec_spheres(items: Seq<SceneItem>, cur: Option<usize>, seen: int) -> Seq<
    SphereDesc,
>
    decreases items.len(),
{
    if items.len() == 0 {
        Seq::empty()
    } else {
        match items[0] {
            SceneItem::DiffuseItem { .. } => spec_spheres(
                items.skip(1),
                Some(seen as usize),
                seen + 1,
            ),
            SceneItem::MetalItem { .. } => spec_spheres(
                items.skip(1),
                Some(seen as usize),
                seen + 1,
            ),
            SceneItem::SphereItem { args } => seq![
                SphereDesc { center_radius: args, material: cur },
            ] + spec_spheres(items.skip(1), cur, seen),
            _ => spec_spheres(items.skip(1), cur, seen),
        }
    }
}

/// Resolves a directive list into the scene it describes: the last
/// camera and background win, and each sphere takes the material
/// directive in force — the current material persists across spheres
/// until a later directive replaces it.
#[verifier::loop_isolation(false)]
pub fn scene_desc(items: Vec<SceneItem>) -> (r: SceneDesc)
    ensures
        r.camera == spec_last_camera(items@),
        r.background == spec_last_background(items@),
        r.materials@ == spec_materials(items@),
        r.spheres@ == spec_spheres(items@, None::<usize>, 0),
        forall|i: int|
            0 <= i < r.spheres@.len() ==> ((#[trigger] r.spheres@[i].material) matches Some(k)
                ==> k < r.materials@.len()),
{
    let ghost items0 = items@;
    let mut rest = items;
    let mut camera: Option<Vec<Vec<u8>>> = None;
    let mut background: Option<Vec<Vec<u8>>> = None;
    let mut materials: Vec<MaterialDesc> = Vec::new();
    let mut spheres: Vec<SphereDesc> = Vec::new();
    let mut cur: Option<usize> = None;
    proof {
        assert(rest@ =~= items0);
        assert(spheres@ + spec_spheres(items0, None::<usize>, 0) =~= spec_spheres(
            items0,
            None::<usize>,
            0,
        ));
        assert(materials@ + spec_materials(items0) =~= spec_materials(items0));
    }
    loop
        invariant
            spec_last_camera(items0) == (if spec_last_camera(rest@) is Some {
                spec_last_camera(rest@)
            } else {
                camera
            }),
            spec_last_background(items0) == (if spec_last_background(rest@) is Some {
                spec_last_background(rest@)
            } else {
                background
            }),
            spec_materials(items0) == materials@ + spec_materials(rest@),
            spec_spheres(items0, None::<usize>, 0) == spheres@ + spec_spheres(
                rest@,
                cur,
                materials@.len() as int,
            ),
            cur matches Some(k) ==> k < materials@.len(),
            forall|i: int|
                0 <= i < spheres@.len() ==> ((#[trigger] spheres@[i].material) matches Some(k)
                    ==> k < materials@.len()),
        decreases rest@.len(),
    {
        if rest.len() == 0 {
            proof {
                assert(spec_spheres(items0, None::<usize>, 0) =~= spheres@);
                assert(spec_materials(items0) =~= materials@);
            }
            return SceneDesc { camera, background, materials, spheres };
        }
        let ghost pre_rest = rest@;
        let ghost pre_spheres = spheres@;
        let ghost pre_materials = materials@;
        let item = rest.remove(0);
        proof {
            assert(rest@ =~= pre_rest.skip(1));
            assert(item == pre_rest[0]);
        }
        match item {
            SceneItem::CameraItem { args } => {
                camera = Some(args);
            },
            SceneItem::BackgroundItem { args } => {
                background = Some(args);
            },
            SceneItem::DiffuseItem { args } => {
                cur = Some(materials.len());
                materials.push(MaterialDesc::DiffuseDesc { args });
                proof {
                    assert(materials@ =~= pre_materials.push(
                        MaterialDesc::DiffuseDesc { args: pre_rest[0]->DiffuseItem_args },
                    ));
                    assert(pre_materials + (seq![
                        MaterialDesc::DiffuseDesc { args: pre_rest[0]->DiffuseItem_args },
                    ] + spec_materials(rest@)) =~= materials@ + spec_materials(rest@));
                }
            },
            SceneItem::MetalItem { args } => {
                cur = Some(materials.len());
                materials.push(MaterialDesc::MetalDesc { args });
                proof {
                    assert(materials@ =~= pre_materials.push(
                        MaterialDesc::MetalDesc { args: pre_rest[0]->MetalItem_args },
                    ));
                    assert(pre_materials + (seq![
                        MaterialDesc::MetalDesc { args: pre_rest[0]->MetalItem_args },
                    ] + spec_materials(rest@)) =~= materials@ + spec_materials(rest@));
                }
            },
            SceneItem::SphereItem { args } => {
                spheres.push(SphereDesc { center_radius: args, material: cur });
                proof {
                    assert(spheres@ =~= pre_spheres.push(
                        SphereDesc {
                            center_radius: pre_rest[0]->SphereItem_args,
                            material: cur,
                        },
                    ));
                    assert(pre_spheres + (seq![
                        SphereDesc {
                            center_radius: pre_rest[0]->SphereItem_args,
                            material: cur,
                        },
                    ] + spec_spheres(rest@, cur, materials@.len() as int)) =~= spheres@
                        + spec_spheres(rest@, cur, materials@.len() as int));
                }
            },
        }
    }
}

fn kw_camera_vec() -> (r: Vec<u8>)
    ensures
        r@ == kw_camera(),
{
    let r: Vec<u8> = vec!['c' as u8, 'a' as u8, 'm' as u8, 'e' as u8, 'r' as u8, 'a' as u8];
    proof {
        assert(r@ =~= kw_camera());
    }
    r
}

fn kw_background_vec() -> (r: Vec<u8>)
    ensures
        r@ == kw_background(),
{
    let r: Vec<u8> = vec![
        'b' as u8,
        'a' as u8,
        'c' as u8,
        'k' as u8,
        'g' as u8,
        'r' as u8,
        'o' as u8,
        'u' as u8,
        'n' as u8,
        'd' as u8,
    ];
    proof {
        assert(r@ =~= kw_background());
    }
    r
}

fn kw_diffuse_vec() -> (r: Vec<u8>)
    ensures
        r@ == kw_diffuse(),
{
    let r: Vec<u8> = vec!['d' as u8, 'i' as u8, 'f' as u8, 'f' as u8, 'u' as u8, 's' as u8, 'e'
            as u8];
    proof {
        assert(r@ =~= kw_diffuse());
    }
    r
}

fn kw_metal_vec() -> (r: Vec<u8>)
    ensures
        r@ == kw_metal(),
{
    let r: Vec<u8> = vec!['m' as u8, 'e' as u8, 't' as u8, 'a' as u8, 'l' as u8];
    proof {
        assert(r@ =~= kw_metal());
    }
    r
}

fn kw_sphere_vec() -> (r: Vec<u8>)
    ensures
        r@ == kw_sphere(),
{
    let r: Vec<u8> = vec!['s' as u8, 'p' as u8, 'h' as u8, 'e' as u8, 'r' as u8, 'e' as u8];
    proof {
        assert(r@ =~= kw_sphere());
    }
    r
}

} // verus!
