//! Small shared helpers: text sniffing, byte formatting, paths.
use vstd::prelude::*;
use vstd::string::*;
use vstd::utf8::*;

use crate::text::{chars_of, decimal, decimal_of, digit_char, utf8_text};

verus! {

// ---------------------------------------------------------------------------
// Text or not
// ---------------------------------------------------------------------------

/// Well-formed UTF-8 without NUL bytes.
pub open spec fn mergeable(bytes: Seq<u8>) -> bool {
    valid_utf8(bytes) && !bytes.contains(0u8)
}

/// True when the bytes look like mergeable text: valid UTF-8 and no NUL bytes.
///
/// Config files in GTNH are all UTF-8 `.cfg`/`.json`/`.txt`; anything that fails
/// this check (quest icons, `.dat` NBT, jars) gets the pick-one-side treatment
/// instead of a line merge.
pub fn is_text(bytes: &[u8]) -> (r: bool)
    ensures
        r == mergeable(bytes@),
        r <==> exists|s: Seq<char>| !s.contains('\0') && bytes@ == #[trigger] encode_utf8(s),
{
    proof {
        law_text_is_any_encoding_without_nul(bytes@);
    }
    let mut i: usize = 0;
    while i < bytes.len()
        invariant
            i <= bytes.len(),
            forall|j: int| 0 <= j < i ==> bytes@[j] != 0,
        decreases bytes.len() - i,
    {
        if bytes[i] == 0 {
            assert(bytes@[i as int] == 0u8);
            assert(bytes@.contains(0u8));
            proof {
                law_text_is_any_encoding_without_nul(bytes@);
            }
            return false;
        }
        i += 1;
    }
    utf8_text(bytes).is_some()
}

// ---------------------------------------------------------------------------
// Sizes
// ---------------------------------------------------------------------------

/// The smallest power of two by which `n` has to be divided to fit 53 bits.
pub open spec fn granule(n: nat, g: nat) -> nat
    decreases n / g,
    when g > 0
{
    if n / g < 0x20_0000_0000_0000 {
        g
    } else {
        proof {
            lemma_halved(n, g);
        }
        granule(n, 2 * g)
    }
}

pub proof fn lemma_halved(n: nat, g: nat)
    requires
        g > 0,
    ensures
        n / (2 * g) <= n / g,
        n / g > 0 ==> n / (2 * g) < n / g,
        n / (2 * g) == (n / g) / 2,
{
    vstd::arithmetic::div_mod::lemma_div_denominator(n as int, g as int, 2);
    assert(g * 2 == 2 * g) by (nonlinear_arith);
}

/// `a / b` to the nearest whole number; halves go to the even one.
pub open spec fn nearest(a: nat, b: nat) -> nat {
    if 2 * (a % b) < b {
        a / b
    } else if 2 * (a % b) > b {
        a / b + 1
    } else {
        a / b + (a / b) % 2
    }
}

/// `n` to 53 significant bits.
pub open spec fn significant(n: nat) -> nat {
    nearest(n, granule(n, 1)) * granule(n, 1)
}

/// The unit a size is given in: bytes, and then each 1024 of the one before.
pub open spec fn unit_size(m: nat) -> nat {
    if m < 0x400 {
        1
    } else if m < 0x10_0000 {
        0x400
    } else if m < 0x4000_0000 {
        0x10_0000
    } else if m < 0x100_0000_0000 {
        0x4000_0000
    } else {
        0x100_0000_0000
    }
}

pub open spec fn unit_name(m: nat) -> Seq<char> {
    if m < 0x400 {
        " B"@
    } else if m < 0x10_0000 {
        " KB"@
    } else if m < 0x4000_0000 {
        " MB"@
    } else if m < 0x100_0000_0000 {
        " GB"@
    } else {
        " TB"@
    }
}

/// A size for people to read: whole bytes, or one digit behind the point in the
/// largest unit that the size reaches.
pub open spec fn size_text(n: nat) -> Seq<char> {
    let m = significant(n);
    if m < 0x400 {
        decimal(n) + unit_name(m)
    } else {
        let tenths = nearest(m * 10, unit_size(m));
        decimal(tenths / 10) + seq!['.', digit_char(tenths % 10)] + unit_name(m)
    }
}

fn nearest_of(a: u128, b: u128) -> (r: u128)
    requires
        0 < b <= 0x100_0000_0000,
        a <= 0xffff_ffff_ffff_ffff_ffff,
    ensures
        r == nearest(a as nat, b as nat),
        r <= a + 1,
        r <= a / b + 1,
{
    let q: u128 = a / b;
    let rem: u128 = a % b;
    proof {
        vstd::arithmetic::div_mod::lemma_div_is_ordered_by_denominator(a as int, 1, b as int);
        vstd::arithmetic::div_mod::lemma_div_basics(a as int);
    }
    if 2 * rem < b {
        q
    } else if 2 * rem > b {
        q + 1
    } else {
        q + q % 2
    }
}

fn significant_of(n: u64) -> (r: u128)
    ensures
        r == significant(n as nat),
        r <= 0x1_0000_0000_0000_0000,
{
    let m: u128 = n as u128;
    let mut g: u128 = 1;
    while m / g >= 0x20_0000_0000_0000
        invariant
            m == n,
            g == 1 || g == 2 || g == 4 || g == 8 || g == 0x10 || g == 0x20 || g == 0x40 || g == 0x80
                || g == 0x100 || g == 0x200 || g == 0x400 || g == 0x800,
            granule(m as nat, 1) == granule(m as nat, g as nat),
        decreases m / g,
    {
        proof {
            lemma_halved(m as nat, g as nat);
            if g == 0x800 {
                assert(m / 0x800 < 0x20_0000_0000_0000);
            }
        }
        g = 2 * g;
    }
    let q = nearest_of(m, g);
    proof {
        assert(q * g <= 0x1_0000_0000_0000_0000 && q <= m + 1) by (nonlinear_arith)
            requires
                q <= m / g + 1,
                q <= m + 1,
                m <= 0xffff_ffff_ffff_ffff,
                1 <= g <= 0x800,
                m / g < 0x20_0000_0000_0000,
        ;
    }
    q * g
}

pub fn human_bytes(n: u64) -> (r: String)
    ensures
        r@ == size_text(n as nat),
{
    let m = significant_of(n);
    if m < 0x400 {
        let mut out = decimal_of(n);
        out.append(" B");
        return out;
    }
    let (unit, name) = if m < 0x10_0000 {
        (0x400u128, " KB")
    } else if m < 0x4000_0000 {
        (0x10_0000u128, " MB")
    } else if m < 0x100_0000_0000 {
        (0x4000_0000u128, " GB")
    } else {
        (0x100_0000_0000u128, " TB")
    };
    let tenths: u128 = nearest_of(m * 10, unit);
    proof {
        assert(tenths <= 0xffff_ffff_ffff_ffff) by (nonlinear_arith)
            requires
                tenths <= m * 10 / (unit as int) + 1,
                m <= 0x1_0000_0000_0000_0000,
                unit >= 0x400,
        ;
    }
    let whole: u64 = (tenths / 10) as u64;
    let digit: u8 = 48 + (tenths % 10) as u8;
    let mut out = decimal_of(whole);
    out.push('.');
    out.push(digit as char);
    out.append(name);
    assert(out@ =~= size_text(n as nat));
    out
}

// ---------------------------------------------------------------------------
// Paths
// ---------------------------------------------------------------------------

pub open spec fn forward_slashes(p: Seq<char>) -> Seq<char> {
    p.map_values(
        |c: char|
            if c == '\\' {
                '/'
            } else {
                c
            },
    )
}

/// The path without any `./` in front.
pub open spec fn without_dots(p: Seq<char>) -> Seq<char>
    decreases p.len(),
{
    if p.len() >= 2 && p[0] == '.' && p[1] == '/' {
        without_dots(p.skip(2))
    } else {
        p
    }
}

/// Normalise a zip entry path to forward slashes with no leading `./`.
pub fn norm_path(p: &str) -> (r: String)
    ensures
        r@ == without_dots(forward_slashes(p@)),
{
    let v = chars_of(p);
    let mut out: Vec<char> = Vec::new();
    let mut i: usize = 0;
    while i < v.len()
        invariant
            v@ == p@,
            i <= v.len(),
            out.len() == i,
            forall|j: int| 0 <= j < i ==> out@[j] == forward_slashes(p@)[j],
        decreases v.len() - i,
    {
        if v[i] == '\\' {
            out.push('/');
        } else {
            out.push(v[i]);
        }
        i += 1;
    }
    let ghost all = forward_slashes(p@);
    assert(out@ =~= all);
    let mut from: usize = 0;
    assert(all.skip(0) =~= all);
    while out.len() - from >= 2 && out[from] == '.' && out[from + 1] == '/'
        invariant
            out@ == all,
            from <= out.len(),
            without_dots(all) == without_dots(all.skip(from as int)),
        decreases out.len() - from,
    {
        assert(all.skip(from as int).skip(2) =~= all.skip(from + 2));
        from += 2;
    }
    assert(all.subrange(from as int, all.len() as int) =~= all.skip(from as int));
    crate::text::string_of(&out, from, out.len())
}

/// `rel` under the directory `dir`; an absolute `rel` stands for itself.
pub open spec fn path_in(dir: Seq<char>, rel: Seq<char>) -> Seq<char> {
    if dir.len() == 0 || (rel.len() > 0 && rel[0] == '/') {
        rel
    } else if dir.last() == '/' {
        dir + rel
    } else {
        dir.push('/') + rel
    }
}

pub fn join_path(dir: &str, rel: &str) -> (r: String)
    ensures
        r@ == path_in(dir@, rel@),
{
    let d = chars_of(dir);
    let v = chars_of(rel);
    if d.len() == 0 || (v.len() > 0 && v[0] == '/') {
        return rel.to_owned();
    }
    let mut out = dir.to_owned();
    if d[d.len() - 1] != '/' {
        out.push('/');
    }
    out.append(rel);
    out
}

proof fn lemma_scalar_bytes(c: u32)
    requires
        is_scalar(c),
    ensures
        encode_scalar(c).contains(0u8) <==> c == 0,
{
    let bytes = encode_scalar(c);
    assert(has_width_1_encoding(c) ==> leading_byte_width_1(c) == c) by (bit_vector);
    assert(leading_byte_width_2(c) != 0 && leading_byte_width_3(c) != 0 && leading_byte_width_4(c)
        != 0 && last_continuation_byte(c) != 0 && second_last_continuation_byte(c) != 0
        && third_last_continuation_byte(c) != 0) by (bit_vector);
    if c == 0 {
        assert(bytes[0] == 0u8);
    } else if bytes.contains(0u8) {
        let i = bytes.index_of(0u8);
        assert(bytes[i] == 0u8);
    }
}

proof fn lemma_encoded_nul(s: Seq<char>)
    ensures
        encode_utf8(s).contains(0u8) <==> s.contains('\0'),
    decreases s.len(),
{
    if s.len() > 0 {
        let head = encode_scalar(s[0] as u32);
        let tail = encode_utf8(s.drop_first());
        char_is_scalar(s[0]);
        lemma_scalar_bytes(s[0] as u32);
        lemma_encoded_nul(s.drop_first());
        if head.contains(0u8) {
            assert((head + tail)[head.index_of(0u8)] == 0u8);
            char_u32_cast(s[0], 0u32);
            char_u32_cast('\0', 0u32);
            assert(s[0] == '\0');
        }
        if tail.contains(0u8) {
            assert((head + tail)[head.len() + tail.index_of(0u8)] == 0u8);
            assert(s[1 + s.drop_first().index_of('\0')] == '\0');
        }
        if (head + tail).contains(0u8) {
            let i = (head + tail).index_of(0u8);
            if i < head.len() {
                assert(head[i] == 0u8);
            } else {
                assert(tail[i - head.len()] == 0u8);
            }
        }
        if s.contains('\0') && s[0] != '\0' {
            assert(s.drop_first()[s.index_of('\0') - 1] == '\0');
        }
    }
}

/// Text is exactly what encodes characters other than NUL in UTF-8, whatever they
/// are: every line ending, every script and every control character but that one.
pub proof fn law_text_is_any_encoding_without_nul(bytes: Seq<u8>)
    ensures
        forall|s: Seq<char>|
            !s.contains('\0') && bytes == #[trigger] encode_utf8(s) ==> mergeable(bytes),
        mergeable(bytes) ==> exists|s: Seq<char>|
            !s.contains('\0') && bytes == #[trigger] encode_utf8(s),
{
    assert forall|s: Seq<char>| !s.contains('\0') && bytes == #[trigger] encode_utf8(
        s,
    ) implies mergeable(bytes) by {
        lemma_encoded_nul(s);
        encode_utf8_valid_utf8(s);
    }
    if mergeable(bytes) {
        let s = decode_utf8(bytes);
        decode_utf8_encode_utf8(bytes);
        lemma_encoded_nul(s);
        assert(!s.contains('\0') && bytes == encode_utf8(s));
    }
}

/// A normalised path holds no backslash and does not start with `./`, and
/// normalising it again changes nothing.
pub proof fn law_normalised_paths_stay_as_they_are(p: Seq<char>)
    ensures
        ({
            let q = without_dots(forward_slashes(p));
            &&& !q.contains('\\')
            &&& !(q.len() >= 2 && q[0] == '.' && q[1] == '/')
            &&& without_dots(forward_slashes(q)) == q
        }),
{
    lemma_without_dots(forward_slashes(p));
    let q = without_dots(forward_slashes(p));
    assert(!q.contains('\\'));
    assert(forward_slashes(q) =~= q);
}

proof fn lemma_without_dots(p: Seq<char>)
    ensures
        !p.contains('\\') ==> !without_dots(p).contains('\\'),
        !(without_dots(p).len() >= 2 && without_dots(p)[0] == '.' && without_dots(p)[1] == '/'),
    decreases p.len(),
{
    if p.len() >= 2 && p[0] == '.' && p[1] == '/' {
        lemma_without_dots(p.skip(2));
        if p.skip(2).contains('\\') {
            let i = p.skip(2).index_of('\\');
            assert(p[i + 2] == '\\');
        }
    }
}

/// A path is written with forward slashes, character for character, and any number of
/// `./` in front of it is dropped; everything else stays.
pub proof fn law_how_paths_are_normalised(p: Seq<char>)
    ensures
        forward_slashes(p).len() == p.len(),
        forall|i: int|
            0 <= i < p.len() ==> #[trigger] forward_slashes(p)[i] == (if p[i] == '\\' {
                '/'
            } else {
                p[i]
            }),
        without_dots("./"@ + p) == without_dots(p),
        !"./"@.is_prefix_of(p) ==> without_dots(p) == p,
        !p.contains('\\') ==> forward_slashes(p) == p,
{
    reveal_strlit("./");
    let s = "./"@ + p;
    assert(s[0] == '.' && s[1] == '/');
    assert(s.skip(2) =~= p);
    if p.len() >= 2 && p[0] == '.' && p[1] == '/' {
        assert(p.subrange(0, 2) =~= "./"@);
    }
    if !p.contains('\\') {
        assert forall|i: int| 0 <= i < p.len() implies forward_slashes(p)[i] == p[i] by {
            assert(p.contains(p[i]));
        }
        assert(forward_slashes(p) =~= p);
    }
}

/// A path below a directory: one slash between them, never two. What starts with a
/// slash stands for itself, and nothing is put in front where the directory is empty.
pub proof fn law_how_paths_are_joined(dir: Seq<char>, rel: Seq<char>)
    ensures
        "/"@.is_prefix_of(rel) || dir.len() == 0 ==> path_in(dir, rel) == rel,
        !"/"@.is_prefix_of(rel) && dir.len() > 0 && !"/"@.is_suffix_of(dir) ==> path_in(dir, rel)
            == dir + "/"@ + rel,
        !"/"@.is_prefix_of(rel) && "/"@.is_suffix_of(dir) ==> path_in(dir, rel) == dir + rel,
{
    reveal_strlit("/");
    assert("/"@ =~= seq!['/']);
    if rel.len() > 0 {
        assert(rel.subrange(0, 1) =~= seq![rel[0]]);
        assert(seq![rel[0]][0] == rel[0]);
    }
    if dir.len() > 0 {
        assert(dir.subrange(dir.len() - 1, dir.len() as int) =~= seq![dir.last()]);
        assert(seq![dir.last()][0] == dir.last());
    }
    assert("/"@.is_prefix_of(rel) ==> rel.subrange(0, 1)[0] == '/');
    assert("/"@.is_suffix_of(dir) ==> dir.subrange(dir.len() - 1, dir.len() as int)[0] == '/');
    assert(dir.push('/') + rel =~= dir + "/"@ + rel);
}

/// Sizes below a kilobyte are given in bytes; from there on in the largest unit they
/// reach, to the nearest tenth, and to the even tenth half way between two.
pub proof fn law_sizes_are_rounded_to_tenths(n: nat, unit: nat, tenths: nat)
    requires
        n < 0x20_0000_0000_0000,
        n < 0x10_0000 ==> unit == 0x400,
        0x10_0000 <= n < 0x4000_0000 ==> unit == 0x10_0000,
        0x4000_0000 <= n < 0x100_0000_0000 ==> unit == 0x4000_0000,
        n >= 0x100_0000_0000 ==> unit == 0x100_0000_0000,
        2 * tenths * unit <= 20 * n + unit,
        20 * n <= 2 * tenths * unit + unit,
        2 * tenths * unit == 20 * n + unit || 20 * n == 2 * tenths * unit + unit ==> tenths % 2
            == 0,
    ensures
        n < 0x400 ==> size_text(n) == decimal(n) + " B"@,
        n >= 0x400 ==> size_text(n) == decimal(tenths / 10) + "."@ + seq![
            ((48 + tenths % 10) as char),
        ] + (if n < 0x10_0000 {
            " KB"@
        } else if n < 0x4000_0000 {
            " MB"@
        } else if n < 0x100_0000_0000 {
            " GB"@
        } else {
            " TB"@
        }),
{
    reveal_strlit(".");
    assert(granule(n, 1) == 1);
    assert(significant(n) == n);
    if n >= 0x400 {
        lemma_nearest_is(n * 10, unit, tenths);
        assert(unit_size(n) == unit);
        assert("."@ =~= seq!['.']);
        let c = (48 + tenths % 10) as char;
        assert(digit_char(tenths % 10) == c);
        assert(decimal(tenths / 10) + seq!['.', c] =~= decimal(tenths / 10) + "."@ + seq![c]);
    }
}

proof fn lemma_nearest_is(a: nat, b: nat, q: nat)
    requires
        b > 0,
        2 * q * b <= 2 * a + b,
        2 * a <= 2 * q * b + b,
        2 * q * b == 2 * a + b || 2 * a == 2 * q * b + b ==> q % 2 == 0,
    ensures
        nearest(a, b) == q,
{
    let d = a / b;
    let r = a % b;
    vstd::arithmetic::div_mod::lemma_fundamental_div_mod(a as int, b as int);
    vstd::arithmetic::div_mod::lemma_mod_bound(a as int, b as int);
    assert(a == b * d + r && 0 <= r < b);
    assert(2 * q * b == 2 * (q * b)) by (nonlinear_arith);
    assert(b * d == d * b) by (nonlinear_arith);
    if q < d {
        assert(q * b + b <= d * b) by (nonlinear_arith)
            requires
                q + 1 <= d,
                b > 0,
        ;
        if q + 1 < d {
            assert(q * b + 2 * b <= d * b) by (nonlinear_arith)
                requires
                    q + 2 <= d,
                    b > 0,
            ;
        }
    } else if q > d + 1 {
        assert(d * b + 2 * b <= q * b) by (nonlinear_arith)
            requires
                d + 2 <= q,
                b > 0,
        ;
    } else if q == d + 1 {
        assert(q * b == d * b + b) by (nonlinear_arith)
            requires
                q == d + 1,
        ;
    }
}

/// What counts as text, asked of the bytes themselves: the encoding of any characters
/// without NUL among them.
pub proof fn law_what_counts_as_text(bytes: &[u8], s: Seq<char>, r: bool)
    requires
        call_ensures(is_text, (bytes,), r),
    ensures
        !s.contains('\0') && bytes@ == encode_utf8(s) ==> r,
        r ==> exists|t: Seq<char>| !t.contains('\0') && bytes@ == #[trigger] encode_utf8(t),
{
}

/// Sizes, paths and what lies below a directory, asked of the calls themselves.
pub proof fn law_what_the_helpers_give(
    n: u64,
    size: String,
    p: &str,
    normal: String,
    dir: &str,
    joined: String,
)
    requires
        call_ensures(human_bytes, (n,), size),
        call_ensures(norm_path, (p,), normal),
        call_ensures(join_path, (dir, p), joined),
    ensures
        n < 0x400 ==> size@ == decimal(n as nat) + " B"@,
        size@ == size_text(n as nat),
        normal@ == without_dots(forward_slashes(p@)),
        !p@.contains('\\') && !"./"@.is_prefix_of(p@) ==> normal@ == p@,
        dir@.len() > 0 && !"/"@.is_suffix_of(dir@) && !"/"@.is_prefix_of(p@) ==> joined@ == dir@
            + "/"@ + p@,
        joined@ == path_in(dir@, p@),
{
    law_how_paths_are_normalised(p@);
    law_how_paths_are_joined(dir@, p@);
    if n < 0x400 {
        let m = n as nat;
        assert(granule(m, 1) == 1);
        assert(m / 1 == m && m % 1 == 0);
        assert(nearest(m, 1) == m);
        assert(significant(m) == m * 1);
    }
}

} // verus!
