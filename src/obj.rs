use vstd::prelude::*;
use crate::error::MeshError;
use crate::mesh::{Face, Vec3f, UNIT};

verus! {

/// Separators: a line feed when splitting text into lines, ASCII blanks
/// (space, tab, vertical tab, form feed, carriage return) when splitting a
/// line into tokens.
pub open spec fn is_sep(b: u8, lines: bool) -> bool {
    if lines {
        b == 10
    } else {
        b == 32 || b == 9 || b == 11 || b == 12 || b == 13
    }
}

/// The current piece, if it is not empty.
pub open spec fn flush(cur: Seq<u8>) -> Seq<Seq<u8>> {
    if cur.len() == 0 { seq![] } else { seq![cur] }
}

/// The non-empty maximal runs of non-separators in `s` from position `i`
/// on, the first of them extending `cur`.
pub open spec fn pieces_from(s: Seq<u8>, i: int, cur: Seq<u8>, lines: bool) -> Seq<Seq<u8>>
    decreases s.len() - i,
{
    if i >= s.len() {
        flush(cur)
    } else if is_sep(s[i], lines) {
        flush(cur) + pieces_from(s, i + 1, seq![], lines)
    } else {
        pieces_from(s, i + 1, cur.push(s[i]), lines)
    }
}

/// The non-empty lines of `s` (when `lines`), or the whitespace-separated
/// tokens of `s`.
pub open spec fn pieces(s: Seq<u8>, lines: bool) -> Seq<Seq<u8>> {
    pieces_from(s, 0, seq![], lines)
}

pub open spec fn views(v: Seq<Vec<u8>>) -> Seq<Seq<u8>> {
    v.map_values(|p: Vec<u8>| p@)
}

/// Splits `s` into its non-empty lines (`lines`) or into its tokens.
pub fn split_pieces(s: &[u8], lines: bool) -> (r: Vec<Vec<u8>>)
    ensures
        views(r@) == pieces(s@, lines),
{
    let mut out: Vec<Vec<u8>> = Vec::new();
    let mut cur: Vec<u8> = Vec::new();
    let mut i: usize = 0;
    while i < s.len()
        invariant
            i <= s@.len(),
            views(out@) + pieces_from(s@, i as int, cur@, lines) == pieces(s@, lines),
        decreases s@.len() - i,
    {
        let b: u8 = s[i];
        let sep: bool = if lines {
            b == 10
        } else {
            b == 32 || b == 9 || b == 11 || b == 12 || b == 13
        };
        if sep {
            let ghost old_out = out@;
            let ghost old_cur = cur@;
            if cur.len() > 0 {
                out.push(cur);
                cur = Vec::new();
                assert(views(out@) =~= views(old_out) + flush(old_cur));
            } else {
                assert(views(out@) =~= views(old_out) + flush(old_cur));
            }
            assert(is_sep(s@[i as int], lines));
            assert(pieces_from(s@, i as int, old_cur, lines)
                == flush(old_cur) + pieces_from(s@, i + 1, seq![], lines));
            assert(cur@ =~= Seq::<u8>::empty());
            assert(views(old_out) + (flush(old_cur) + pieces_from(s@, i + 1, seq![], lines))
                =~= (views(old_out) + flush(old_cur)) + pieces_from(s@, i + 1, seq![], lines));
        } else {
            cur.push(b);
        }
        i = i + 1;
    }
    let ghost old_out = out@;
    let ghost old_cur = cur@;
    if cur.len() > 0 {
        out.push(cur);
    }
    assert(views(out@) =~= views(old_out) + flush(old_cur));
    out
}

pub open spec fn is_digit(b: u8) -> bool {
    48 <= b <= 57
}

pub open spec fn all_digits(s: Seq<u8>) -> bool {
    forall|i: int| 0 <= i < s.len() ==> is_digit(#[trigger] s[i])
}

/// The number that a sequence of decimal digits writes.
pub open spec fn digits_val(s: Seq<u8>) -> int
    decreases s.len(),
{
    if s.len() == 0 {
        0
    } else {
        digits_val(s.drop_last()) * 10 + (s.last() - 48)
    }
}

pub open spec fn pow10(n: nat) -> int
    decreases n,
{
    if n == 0 { 1 } else { 10 * pow10((n - 1) as nat) }
}

/// Position of the first `b` in `s` at or after `i`, or `s.len()` if none.
pub open spec fn find_from(s: Seq<u8>, b: u8, i: int) -> int
    decreases s.len() - i,
{
    if i >= s.len() {
        s.len() as int
    } else if s[i] == b {
        i
    } else {
        find_from(s, b, i + 1)
    }
}

proof fn lemma_find_from_range(s: Seq<u8>, b: u8, i: int)
    requires
        0 <= i <= s.len(),
    ensures
        i <= find_from(s, b, i) <= s.len(),
    decreases s.len() - i,
{
    if i < s.len() && s[i] != b {
        lemma_find_from_range(s, b, i + 1);
    }
}

proof fn lemma_pow10_limits()
    ensures
        pow10(FRAC_DIGITS as nat) == 1_000_000,
        pow10(INT_DIGITS as nat) == 1_000_000_000_000,
{
    reveal_with_fuel(pow10, 13);
}

proof fn lemma_pow10_mono(m: nat, n: nat)
    requires
        m <= n,
    ensures
        1 <= pow10(m) <= pow10(n),
    decreases n,
{
    if n > m {
        lemma_pow10_mono(m, (n - 1) as nat);
    } else if n > 0 {
        lemma_pow10_mono(0, (n - 1) as nat);
    }
}

proof fn lemma_digits_prefix(s: Seq<u8>, lo: int, j: int)
    requires
        0 <= lo <= j < s.len(),
    ensures
        digits_val(s.subrange(lo, j + 1)) == digits_val(s.subrange(lo, j)) * 10 + (s[j] - 48),
{
    assert(s.subrange(lo, j + 1).drop_last() =~= s.subrange(lo, j));
}

/// A digit string is no smaller than any of its prefixes.
proof fn lemma_digits_monotone(s: Seq<u8>, j: int)
    requires
        all_digits(s),
        0 <= j <= s.len(),
    ensures
        0 <= digits_val(s.take(j)) <= digits_val(s),
    decreases s.len(),
{
    if s.len() > 0 {
        assert(is_digit(s[s.len() - 1]));
        if j == s.len() {
            assert(s.take(j) =~= s);
            lemma_digits_monotone(s.drop_last(), j - 1);
        } else {
            assert(s.take(j) =~= s.drop_last().take(j));
            lemma_digits_monotone(s.drop_last(), j);
            lemma_digits_monotone(s.drop_last(), 0);
        }
    } else {
        assert(s.take(j) =~= s);
    }
}

/// Position of the first `b` in `s` at or after `from`, or `s.len()`.
fn find_byte(s: &Vec<u8>, b: u8, from: usize) -> (r: usize)
    requires
        from <= s@.len(),
    ensures
        r == find_from(s@, b, from as int),
        from <= r <= s@.len(),
{
    let mut i: usize = from;
    while i < s.len() && s[i] != b
        invariant
            from <= i <= s@.len(),
            find_from(s@, b, i as int) == find_from(s@, b, from as int),
        decreases s@.len() - i,
    {
        i = i + 1;
    }
    i
}

/// Whether `s[lo..hi]` holds only decimal digits.
fn digits_only(s: &Vec<u8>, lo: usize, hi: usize) -> (r: bool)
    requires
        lo <= hi <= s@.len(),
    ensures
        r == all_digits(s@.subrange(lo as int, hi as int)),
{
    let mut i: usize = lo;
    while i < hi
        invariant
            lo <= i <= hi <= s@.len(),
            all_digits(s@.subrange(lo as int, i as int)),
        decreases hi - i,
    {
        if !(48 <= s[i] && s[i] <= 57) {
            assert(s@.subrange(lo as int, hi as int)[i - lo] == s@[i as int]);
            return false;
        }
        assert forall|k: int| 0 <= k < i + 1 - lo implies is_digit(#[trigger] s@.subrange(lo as int, i + 1)[k]) by {
            if k < i - lo {
                assert(s@.subrange(lo as int, i + 1)[k] == s@.subrange(lo as int, i as int)[k]);
            }
        }
        i = i + 1;
    }
    true
}

/// Decimal places of a coordinate that are kept (those of [`UNIT`]).
pub const FRAC_DIGITS: usize = 6;

/// Longest integer part that a coordinate may have.
pub const INT_DIGITS: usize = 12;

/// The vertex number of a face token: the part before its first `/`.
pub open spec fn index_field(tok: Seq<u8>) -> Seq<u8> {
    tok.subrange(0, find_from(tok, 47, 0))
}

/// The 0-based vertex index that a face token names: its vertex number,
/// a decimal from 1 to `usize::MAX`, less one.
pub open spec fn parse_index(tok: Seq<u8>) -> Option<usize> {
    let p = index_field(tok);
    if p.len() > 0 && all_digits(p) && 1 <= digits_val(p) <= usize::MAX {
        Some((digits_val(p) - 1) as usize)
    } else {
        None
    }
}

/// Length of a leading `+` or `-`.
pub open spec fn sign_len(tok: Seq<u8>) -> int {
    if tok.len() > 0 && (tok[0] == 45 || tok[0] == 43) { 1 } else { 0 }
}

/// Position of the decimal point, or the token's length.
pub open spec fn dot_pos(tok: Seq<u8>) -> int {
    find_from(tok, 46, sign_len(tok))
}

/// Digits before the decimal point.
pub open spec fn int_part(tok: Seq<u8>) -> Seq<u8> {
    tok.subrange(sign_len(tok), dot_pos(tok))
}

/// Digits after the decimal point.
pub open spec fn frac_part(tok: Seq<u8>) -> Seq<u8> {
    if dot_pos(tok) < tok.len() {
        tok.subrange(dot_pos(tok) + 1, tok.len() as int)
    } else {
        seq![]
    }
}

/// Digit `j` of a fraction, zero past its end.
pub open spec fn frac_digit(fp: Seq<u8>, j: int) -> int {
    if j < fp.len() { fp[j] - 48 } else { 0 }
}

/// The first `j` decimal places of a fraction as an integer.
pub open spec fn frac_val(fp: Seq<u8>, j: nat) -> int
    decreases j,
{
    if j == 0 { 0 } else { frac_val(fp, (j - 1) as nat) * 10 + frac_digit(fp, j - 1) }
}

/// The fixed-point value of a coordinate token `[+-]digits[.digits]`
/// (at least one digit, at most `INT_DIGITS` before the point); decimal
/// places past `FRAC_DIGITS` are dropped.
pub open spec fn parse_coord(tok: Seq<u8>) -> Option<i64> {
    let ip = int_part(tok);
    let fp = frac_part(tok);
    if all_digits(ip) && all_digits(fp) && ip.len() + fp.len() >= 1 && ip.len() <= INT_DIGITS {
        let mag = digits_val(ip) * UNIT + frac_val(fp, FRAC_DIGITS as nat);
        Some((if tok.len() > 0 && tok[0] == 45 { -mag } else { mag }) as i64)
    } else {
        None
    }
}

/// The 0-based vertex index named by a face token, if it names one.
pub fn parse_index_token(tok: &Vec<u8>) -> (r: Option<usize>)
    ensures
        r == parse_index(tok@),
{
    let end: usize = find_byte(tok, 47, 0);
    let ghost p = index_field(tok@);
    if end == 0 {
        return None;
    }
    if !digits_only(tok, 0, end) {
        return None;
    }
    let mut acc: usize = 0;
    let mut j: usize = 0;
    while j < end
        invariant
            0 < end <= tok@.len(),
            p == tok@.subrange(0, end as int),
            p == index_field(tok@),
            all_digits(p),
            j <= end,
            acc == digits_val(p.take(j as int)),
        decreases end - j,
    {
        proof {
            assert(p.take(j as int + 1).drop_last() =~= p.take(j as int));
            assert(is_digit(p[j as int]));
            assert(p[j as int] == tok@[j as int]);
            assert(p.take(j as int + 1).last() == p[j as int]);
            lemma_digits_monotone(p, j as int + 1);
            assert(digits_val(p.take(j as int + 1)) == acc * 10 + (tok@[j as int] - 48));
        }
        let d: usize = (tok[j] - 48) as usize;
        match acc.checked_mul(10) {
            None => {
                return None;
            },
            Some(t) => match t.checked_add(d) {
                None => {
                    return None;
                },
                Some(v) => {
                    acc = v;
                },
            },
        }
        j = j + 1;
    }
    assert(p.take(end as int) =~= p);
    if acc == 0 {
        return None;
    }
    Some(acc - 1)
}

/// The fixed-point value of a coordinate token, if it is one.
pub fn parse_coord_token(tok: &Vec<u8>) -> (r: Option<i64>)
    ensures
        r == parse_coord(tok@),
{
    let n: usize = tok.len();
    let sl: usize = if n > 0 && (tok[0] == 45 || tok[0] == 43) { 1 } else { 0 };
    let dot: usize = find_byte(tok, 46, sl);
    let fs: usize = if dot < n { dot + 1 } else { n };
    let ghost ip = int_part(tok@);
    let ghost fp = frac_part(tok@);
    assert(fp =~= tok@.subrange(fs as int, n as int));
    if !digits_only(tok, sl, dot) || !digits_only(tok, fs, n) {
        return None;
    }
    if (dot - sl) + (n - fs) < 1 || dot - sl > INT_DIGITS {
        return None;
    }
    let mut whole: i64 = 0;
    let mut i: usize = sl;
    while i < dot
        invariant
            sl <= i <= dot <= n,
            n == tok@.len(),
            dot - sl <= INT_DIGITS,
            ip == tok@.subrange(sl as int, dot as int),
            all_digits(ip),
            whole == digits_val(tok@.subrange(sl as int, i as int)),
            0 <= whole < pow10((i - sl) as nat),
        decreases dot - i,
    {
        proof {
            lemma_digits_prefix(tok@, sl as int, i as int);
            assert(ip[i - sl] == tok@[i as int]);
            assert(is_digit(ip[i - sl]));
            lemma_pow10_mono((i + 1 - sl) as nat, INT_DIGITS as nat);
            assert(pow10((i + 1 - sl) as nat) == 10 * pow10((i - sl) as nat));
            lemma_pow10_limits();
        }
        whole = whole * 10 + (tok[i] - 48) as i64;
        i = i + 1;
    }
    let mut frac: i64 = 0;
    let mut j: usize = 0;
    while j < FRAC_DIGITS
        invariant
            j <= FRAC_DIGITS,
            fs <= n,
            n == tok@.len(),
            fp == tok@.subrange(fs as int, n as int),
            all_digits(fp),
            frac == frac_val(fp, j as nat),
            0 <= frac < pow10(j as nat),
        decreases FRAC_DIGITS - j,
    {
        proof {
            lemma_pow10_mono((j + 1) as nat, FRAC_DIGITS as nat);
            lemma_pow10_limits();
        }
        let d: i64 = if j < n - fs {
            proof {
                assert(is_digit(fp[j as int]));
            }
            (tok[fs + j] - 48) as i64
        } else {
            0
        };
        frac = frac * 10 + d;
        j = j + 1;
    }
    proof {
        lemma_pow10_limits();
        lemma_pow10_mono((dot - sl) as nat, INT_DIGITS as nat);
    }
    let mag: i64 = whole * UNIT + frac;
    if n > 0 && tok[0] == 45 {
        Some(-mag)
    } else {
        Some(mag)
    }
}

/// The vertices and face index lists read so far.
pub type MeshParts = (Seq<Vec3f>, Seq<Seq<usize>>);

/// The vertex indices named by face tokens, if each names one.
pub open spec fn face_indices(ts: Seq<Seq<u8>>) -> Option<Seq<usize>>
    decreases ts.len(),
{
    if ts.len() == 0 {
        Some(seq![])
    } else {
        match (face_indices(ts.drop_last()), parse_index(ts.last())) {
            (Some(a), Some(b)) => Some(a.push(b)),
            _ => None,
        }
    }
}

/// The effect of one line's tokens: a `v` line adds a vertex from its next
/// three tokens, an `f` line adds a face from all its other tokens (three
/// or more), and any other line, empty ones included, changes nothing.
pub open spec fn apply_record(toks: Seq<Seq<u8>>, st: MeshParts) -> Result<MeshParts, MeshError> {
    if toks.len() == 0 {
        Ok(st)
    } else if toks[0] == seq![118u8] {
        if toks.len() < 4 {
            Err(MeshError::MalformedRecord)
        } else {
            match (parse_coord(toks[1]), parse_coord(toks[2]), parse_coord(toks[3])) {
                (Some(x), Some(y), Some(z)) => Ok((st.0.push(Vec3f { x, y, z }), st.1)),
                _ => Err(MeshError::MalformedRecord),
            }
        }
    } else if toks[0] == seq![102u8] {
        if toks.len() < 4 {
            Err(MeshError::MalformedRecord)
        } else {
            match face_indices(toks.skip(1)) {
                Some(ix) => Ok((st.0, st.1.push(ix))),
                None => Err(MeshError::MalformedRecord),
            }
        }
    } else {
        Ok(st)
    }
}

/// The mesh parts that a sequence of tokenized lines gives, or the first error.
pub open spec fn parse_records(recs: Seq<Seq<Seq<u8>>>) -> Result<MeshParts, MeshError>
    decreases recs.len(),
{
    if recs.len() == 0 {
        Ok((seq![], seq![]))
    } else {
        match parse_records(recs.drop_last()) {
            Ok(st) => apply_record(recs.last(), st),
            Err(e) => Err(e),
        }
    }
}

/// The tokenized non-empty lines of a text.
pub open spec fn records(text: Seq<u8>) -> Seq<Seq<Seq<u8>>> {
    pieces(text, true).map_values(|l: Seq<u8>| pieces(l, false))
}

/// Every face index names one of `n` vertices.
pub open spec fn indices_in_range(fs: Seq<Seq<usize>>, n: int) -> bool {
    forall|f: int, k: int| 0 <= f < fs.len() && 0 <= k < fs[f].len() ==> #[trigger] fs[f][k] < n
}

/// The vertices and faces that a mesh text describes, or the error that stops it.
pub open spec fn parse_obj(text: Seq<u8>) -> Result<MeshParts, MeshError> {
    match parse_records(records(text)) {
        Ok(st) => if indices_in_range(st.1, st.0.len() as int) {
            Ok(st)
        } else {
            Err(MeshError::IndexOutOfRange)
        },
        Err(e) => Err(e),
    }
}

pub open spec fn face_views(fs: Seq<Face>) -> Seq<Seq<usize>> {
    fs.map_values(|f: Face| f.indices@)
}

proof fn lemma_face_indices_len(ts: Seq<Seq<u8>>)
    requires
        face_indices(ts) is Some,
    ensures
        face_indices(ts)->Some_0.len() == ts.len(),
    decreases ts.len(),
{
    if ts.len() > 0 {
        lemma_face_indices_len(ts.drop_last());
    }
}

/// Every face that parsing yields has three or more indices.
pub proof fn lemma_parsed_faces_long(recs: Seq<Seq<Seq<u8>>>)
    requires
        parse_records(recs) is Ok,
    ensures
        forall|f: int| 0 <= f < parse_records(recs)->Ok_0.1.len()
            ==> (#[trigger] parse_records(recs)->Ok_0.1[f]).len() >= 3,
    decreases recs.len(),
{
    if recs.len() > 0 {
        lemma_parsed_faces_long(recs.drop_last());
        let toks = recs.last();
        if toks.len() >= 4 && toks[0] == seq![102u8] {
            if face_indices(toks.skip(1)) is Some {
                lemma_face_indices_len(toks.skip(1));
            }
        }
    }
}

/// Whether `tok` is the one-byte word `c`.
fn is_word(tok: &Vec<u8>, c: u8) -> (r: bool)
    ensures
        r == (tok@ == seq![c]),
{
    if tok.len() == 1 && tok[0] == c {
        assert(tok@ =~= seq![c]);
        true
    } else {
        false
    }
}

/// Applies one tokenized line to the vertices and faces read so far.
pub fn parse_record(toks: &Vec<Vec<u8>>, vs: &mut Vec<Vec3f>, fs: &mut Vec<Face>) -> (r: Result<(), MeshError>)
    ensures
        match apply_record(views(toks@), (old(vs)@, face_views(old(fs)@))) {
            Ok(st) => r is Ok && final(vs)@ == st.0 && face_views(final(fs)@) == st.1,
            Err(e) => r == Err::<(), MeshError>(e),
        },
{
    let ghost t = views(toks@);
    let n: usize = toks.len();
    if n == 0 {
        return Ok(());
    }
    assert(t[0] == toks@[0]@);
    if is_word(&toks[0], 118) {
        if n < 4 {
            return Err(MeshError::MalformedRecord);
        }
        assert(t[1] == toks@[1]@ && t[2] == toks@[2]@ && t[3] == toks@[3]@);
        let x = parse_coord_token(&toks[1]);
        let y = parse_coord_token(&toks[2]);
        let z = parse_coord_token(&toks[3]);
        match (x, y, z) {
            (Some(x), Some(y), Some(z)) => {
                vs.push(Vec3f { x, y, z });
                Ok(())
            },
            _ => Err(MeshError::MalformedRecord),
        }
    } else if is_word(&toks[0], 102) {
        if n < 4 {
            return Err(MeshError::MalformedRecord);
        }
        let mut ix: Vec<usize> = Vec::new();
        let mut j: usize = 1;
        while j < n
            invariant
                1 <= j <= n,
                n == toks@.len(),
                t == views(toks@),
                n >= 4,
                t[0] == seq![102u8],
                t[0] != seq![118u8],
                vs@ == old(vs)@,
                fs@ == old(fs)@,
                face_indices(t.subrange(1, j as int)) == Some(ix@),
            decreases n - j,
        {
            proof {
                assert(t.subrange(1, j as int + 1).drop_last() =~= t.subrange(1, j as int));
                assert(t.subrange(1, j as int + 1).last() == toks@[j as int]@);
            }
            match parse_index_token(&toks[j]) {
                Some(k) => {
                    ix.push(k);
                },
                None => {
                    assert(t.skip(1) =~= t.subrange(1, n as int));
                    proof {
                        assert(face_indices(t.subrange(1, j as int + 1)) is None);
                        assert(t.subrange(1, n as int).take(j as int) =~= t.subrange(1, j as int + 1));
                        lemma_face_indices_prefix_none(t.subrange(1, n as int), j as int);
                    }
                    return Err(MeshError::MalformedRecord);
                },
            }
            j = j + 1;
        }
        assert(t.skip(1) =~= t.subrange(1, n as int));
        let ghost old_fs = fs@;
        fs.push(Face { indices: ix });
        assert(face_views(fs@) =~= face_views(old_fs).push(ix@));
        Ok(())
    } else {
        Ok(())
    }
}

/// A face token list with a bad token in its first `j` has no indices.
proof fn lemma_face_indices_prefix_none(ts: Seq<Seq<u8>>, j: int)
    requires
        0 <= j <= ts.len(),
        face_indices(ts.take(j)) is None,
    ensures
        face_indices(ts) is None,
    decreases ts.len(),
{
    if j < ts.len() {
        assert(ts.drop_last().take(j) =~= ts.take(j));
        lemma_face_indices_prefix_none(ts.drop_last(), j);
    } else {
        assert(ts.take(j) =~= ts);
    }
}

/// Once a prefix of the lines fails, the whole text fails with the same error.
pub proof fn lemma_parse_records_err(recs: Seq<Seq<Seq<u8>>>, j: int)
    requires
        0 <= j <= recs.len(),
        parse_records(recs.take(j)) is Err,
    ensures
        parse_records(recs) == parse_records(recs.take(j)),
    decreases recs.len(),
{
    if j < recs.len() {
        assert(recs.drop_last().take(j) =~= recs.take(j));
        lemma_parse_records_err(recs.drop_last(), j);
    } else {
        assert(recs.take(j) =~= recs);
    }
}

/// What follows the last `b` in `s` (all of `s` if it holds none).
pub open spec fn after_last(s: Seq<u8>, b: u8) -> Seq<u8>
    decreases s.len(),
{
    if s.len() == 0 {
        s
    } else if s.last() == b {
        seq![]
    } else {
        after_last(s.drop_last(), b).push(s.last())
    }
}

/// A mesh's name from its file path: the last path component up to its
/// first `.`. It holds no `/`.
pub open spec fn mesh_name_of(path: Seq<u8>) -> Seq<u8> {
    let base = after_last(path, 47);
    base.subrange(0, find_from(base, 46, 0))
}

/// The last path component of `path`, up to its first `.`.
pub fn mesh_name(path: &[u8]) -> (r: Vec<u8>)
    ensures
        r@ == mesh_name_of(path@),
        forall|i: int| 0 <= i < r@.len() ==> #[trigger] r@[i] != 47,
{
    let mut base: Vec<u8> = Vec::new();
    let mut i: usize = 0;
    while i < path.len()
        invariant
            i <= path@.len(),
            base@ == after_last(path@.take(i as int), 47),
        decreases path@.len() - i,
    {
        proof {
            assert(path@.take(i as int + 1).drop_last() =~= path@.take(i as int));
            assert(path@.take(i as int + 1).last() == path@[i as int]);
        }
        if path[i] == 47 {
            base = Vec::new();
            assert(base@ =~= Seq::<u8>::empty());
        } else {
            base.push(path[i]);
        }
        i = i + 1;
    }
    assert(path@.take(path@.len() as int) =~= path@);
    let end: usize = find_byte(&base, 46, 0);
    let mut out: Vec<u8> = Vec::new();
    let mut k: usize = 0;
    while k < end
        invariant
            k <= end <= base@.len(),
            out@ == base@.subrange(0, k as int),
        decreases end - k,
    {
        out.push(base[k]);
        assert(out@ =~= base@.subrange(0, k as int + 1));
        k = k + 1;
    }
    proof {
        lemma_after_last_free(path@, 47);
        assert forall|i: int| 0 <= i < out@.len() implies #[trigger] out@[i] != 47 by {
            assert(out@[i] == base@[i]);
        }
    }
    out
}

proof fn lemma_after_last_free(s: Seq<u8>, b: u8)
    ensures
        forall|i: int| 0 <= i < after_last(s, b).len() ==> #[trigger] after_last(s, b)[i] != b,
    decreases s.len(),
{
    if s.len() > 0 && s.last() != b {
        lemma_after_last_free(s.drop_last(), b);
        let a = after_last(s.drop_last(), b);
        assert forall|i: int| 0 <= i < a.push(s.last()).len() implies #[trigger] a.push(s.last())[i] != b by {
            if i < a.len() {
                assert(a.push(s.last())[i] == a[i]);
            }
        }
    }
}

} // verus!
