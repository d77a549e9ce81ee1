//! The durable encoding of the local state.
//!
//! The reserved state file holds one document: the revision, the number of
//! records, and the records themselves. Numbers are written as twenty
//! decimal digits, strings are length-prefixed, optional fields carry a one
//! character tag (`n` for absent, `s` / `u` for a present string or number).
//! Decoding rejects anything else; encoding then decoding yields the state
//! unchanged, which [`lemma_state_round_trip`] proves.

use vstd::prelude::*;

use crate::model::FileDefinition;
use crate::model::FileDefinitionView;
use crate::model::LocalState;
use crate::model::LocalStateView;
use crate::model::defs_view;
use crate::model::opt_view;

verus! {

/// The number of decimal digits every encoded number occupies: enough for
/// any 64-bit value.
pub const NUM_WIDTH: usize = 20;

pub open spec fn is_digit(c: char) -> bool {
    c == '0' || c == '1' || c == '2' || c == '3' || c == '4' || c == '5' || c == '6' || c == '7'
        || c == '8' || c == '9'
}

pub open spec fn digit_char(d: int) -> char {
    if d == 0 {
        '0'
    } else if d == 1 {
        '1'
    } else if d == 2 {
        '2'
    } else if d == 3 {
        '3'
    } else if d == 4 {
        '4'
    } else if d == 5 {
        '5'
    } else if d == 6 {
        '6'
    } else if d == 7 {
        '7'
    } else if d == 8 {
        '8'
    } else {
        '9'
    }
}

/// The value of a digit; 10 marks a character that is no digit.
pub open spec fn digit_val(c: char) -> int {
    if c == '0' {
        0
    } else if c == '1' {
        1
    } else if c == '2' {
        2
    } else if c == '3' {
        3
    } else if c == '4' {
        4
    } else if c == '5' {
        5
    } else if c == '6' {
        6
    } else if c == '7' {
        7
    } else if c == '8' {
        8
    } else if c == '9' {
        9
    } else {
        10
    }
}

pub open spec fn all_digits(s: Seq<char>) -> bool {
    forall|i: int| 0 <= i < s.len() ==> is_digit(#[trigger] s[i])
}

/// The last `w` decimal digits of `n`, most significant first.
pub open spec fn enc_digits(n: int, w: nat) -> Seq<char>
    decreases w,
{
    if w == 0 {
        Seq::empty()
    } else {
        enc_digits(n / 10, (w - 1) as nat).push(digit_char(n % 10))
    }
}

/// A 64-bit number as exactly twenty decimal digits.
pub open spec fn enc_u64(n: u64) -> Seq<char> {
    enc_digits(n as int, NUM_WIDTH as nat)
}

/// The value of a digit string, most significant digit first.
pub open spec fn digits_val(s: Seq<char>) -> int
    decreases s.len(),
{
    if s.len() == 0 {
        0
    } else {
        digits_val(s.drop_last()) * 10 + digit_val(s.last())
    }
}

pub open spec fn pow10(w: nat) -> int
    decreases w,
{
    if w == 0 {
        1
    } else {
        10 * pow10((w - 1) as nat)
    }
}

/// A length-prefixed string.
pub open spec fn enc_str(s: Seq<char>) -> Seq<char> {
    enc_u64(s.len() as u64) + s
}

/// An optional string: `n` alone, or `s` and the string.
pub open spec fn enc_opt_str(o: Option<Seq<char>>) -> Seq<char> {
    match o {
        None => seq!['n'],
        Some(s) => seq!['s'] + enc_str(s),
    }
}

/// An optional number: `n` alone, or `u` and the number.
pub open spec fn enc_opt_u64(o: Option<u64>) -> Seq<char> {
    match o {
        None => seq!['n'],
        Some(v) => seq!['u'] + enc_u64(v),
    }
}

/// One record: name, path, id, size, checksum, modification time, in that
/// order.
pub open spec fn enc_file(f: FileDefinitionView) -> Seq<char> {
    enc_str(f.name) + enc_str(f.path) + enc_opt_str(f.id) + enc_opt_u64(f.size) + enc_opt_str(
        f.checksum,
    ) + enc_opt_u64(f.last_update)
}

/// The records, one after the other.
pub open spec fn enc_files(fs: Seq<FileDefinitionView>) -> Seq<char>
    decreases fs.len(),
{
    if fs.len() == 0 {
        Seq::empty()
    } else {
        enc_file(fs.first()) + enc_files(fs.drop_first())
    }
}

/// The whole document: revision, record count, records.
pub open spec fn spec_encode_state(st: LocalStateView) -> Seq<char> {
    enc_u64(st.revision) + enc_u64(st.files.len() as u64) + enc_files(st.files)
}

/// Encoding a list of records extends at the back.
pub proof fn lemma_enc_files_snoc(fs: Seq<FileDefinitionView>, f: FileDefinitionView)
    ensures
        enc_files(fs.push(f)) == enc_files(fs) + enc_file(f),
    decreases fs.len(),
{
    if fs.len() == 0 {
        assert(fs.push(f).first() == f);
        assert(fs.push(f).drop_first() =~= fs);
        assert(enc_files(fs.push(f)) =~= enc_files(fs) + enc_file(f));
    } else {
        assert(fs.push(f).first() == fs.first());
        assert(fs.push(f).drop_first() =~= fs.drop_first().push(f));
        lemma_enc_files_snoc(fs.drop_first(), f);
        assert(enc_files(fs.push(f)) =~= enc_files(fs) + enc_file(f));
    }
}

/// One digit as a string literal.
fn digit_str(d: u64) -> (r: &'static str)
    requires
        d < 10,
    ensures
        r@ == seq![digit_char(d as int)],
{
    proof {
        reveal_strlit("0");
        reveal_strlit("1");
        reveal_strlit("2");
        reveal_strlit("3");
        reveal_strlit("4");
        reveal_strlit("5");
        reveal_strlit("6");
        reveal_strlit("7");
        reveal_strlit("8");
        reveal_strlit("9");
    }
    let r: &'static str = if d == 0 {
        "0"
    } else if d == 1 {
        "1"
    } else if d == 2 {
        "2"
    } else if d == 3 {
        "3"
    } else if d == 4 {
        "4"
    } else if d == 5 {
        "5"
    } else if d == 6 {
        "6"
    } else if d == 7 {
        "7"
    } else if d == 8 {
        "8"
    } else {
        "9"
    };
    proof {
        assert(r@ =~= seq![digit_char(d as int)]);
    }
    r
}

fn encode_digits(n: u64, w: usize) -> (r: String)
    ensures
        r@ == enc_digits(n as int, w as nat),
    decreases w,
{
    if w == 0 {
        let r = String::new();
        assert(r@ =~= enc_digits(n as int, 0));
        r
    } else {
        let mut s = encode_digits(n / 10, w - 1);
        s.append(digit_str(n % 10));
        assert(s@ =~= enc_digits(n as int, w as nat));
        s
    }
}

/// A number as its fixed-width decimal encoding.
pub fn encode_u64(n: u64) -> (r: String)
    ensures
        r@ == enc_u64(n),
{
    encode_digits(n, NUM_WIDTH)
}

fn encode_str(s: &str) -> (r: String)
    ensures
        r@ == enc_str(s@),
{
    let n = s.unicode_len();
    let mut out = encode_u64(n as u64);
    out.append(s);
    out
}

fn encode_opt_str(o: &Option<String>) -> (r: String)
    ensures
        r@ == enc_opt_str(opt_view(*o)),
{
    proof {
        reveal_strlit("n");
        reveal_strlit("s");
    }
    match o {
        None => {
            let r = String::from_str("n");
            assert(r@ =~= enc_opt_str(None));
            r
        },
        Some(s) => {
            let mut out = String::from_str("s");
            let enc = encode_str(s.as_str());
            out.append(enc.as_str());
            assert(out@ =~= enc_opt_str(Some(s@)));
            out
        },
    }
}

fn encode_opt_u64(o: &Option<u64>) -> (r: String)
    ensures
        r@ == enc_opt_u64(*o),
{
    proof {
        reveal_strlit("n");
        reveal_strlit("u");
    }
    match o {
        None => {
            let r = String::from_str("n");
            assert(r@ =~= enc_opt_u64(None));
            r
        },
        Some(v) => {
            let mut out = String::from_str("u");
            let enc = encode_u64(*v);
            out.append(enc.as_str());
            assert(out@ =~= enc_opt_u64(Some(*v)));
            out
        },
    }
}

fn encode_file(f: &FileDefinition) -> (r: String)
    ensures
        r@ == enc_file(f@),
{
    let mut out = encode_str(f.name.as_str());
    let part = encode_str(f.path.as_str());
    out.append(part.as_str());
    let part = encode_opt_str(&f.id);
    out.append(part.as_str());
    let part = encode_opt_u64(&f.size);
    out.append(part.as_str());
    let part = encode_opt_str(&f.checksum);
    out.append(part.as_str());
    let part = encode_opt_u64(&f.last_update);
    out.append(part.as_str());
    assert(out@ =~= enc_file(f@));
    out
}

/// The whole state as the document [`spec_encode_state`] describes.
pub fn encode_state(st: &LocalState) -> (r: String)
    ensures
        r@ == spec_encode_state(st@),
{
    let mut out = encode_u64(st.revision);
    let count = st.files.len();
    let part = encode_u64(count as u64);
    out.append(part.as_str());
    let ghost header = out@;
    let mut i: usize = 0;
    while i < count
        invariant
            count == st.files.len(),
            i <= count,
            header == enc_u64(st@.revision) + enc_u64(st@.files.len() as u64),
            out@ == header + enc_files(st@.files.subrange(0, i as int)),
        decreases count - i,
    {
        let part = encode_file(&st.files[i]);
        out.append(part.as_str());
        proof {
            let prefix = st@.files.subrange(0, i as int);
            let prefix1 = st@.files.subrange(0, i + 1 as int);
            assert(defs_view(st.files@) == st@.files);
            assert(st@.files[i as int] == st.files@[i as int]@);
            assert(prefix1 =~= prefix.push(st@.files[i as int]));
            lemma_enc_files_snoc(prefix, st@.files[i as int]);
            assert(out@ =~= header + enc_files(prefix1));
        }
        i = i + 1;
    }
    proof {
        assert(st@.files.subrange(0, count as int) =~= st@.files);
        assert(out@ =~= spec_encode_state(st@));
    }
    out
}

/// Twenty digits read at `pos`, when they are digits and their value fits.
pub open spec fn parse_u64(s: Seq<char>, pos: int) -> Option<(u64, int)> {
    if pos < 0 || pos + NUM_WIDTH > s.len() {
        None
    } else {
        let chunk = s.subrange(pos, pos + NUM_WIDTH);
        if all_digits(chunk) && digits_val(chunk) <= u64::MAX {
            Some((digits_val(chunk) as u64, pos + NUM_WIDTH))
        } else {
            None
        }
    }
}

/// A length-prefixed string read at `pos`.
pub open spec fn parse_str(s: Seq<char>, pos: int) -> Option<(Seq<char>, int)> {
    match parse_u64(s, pos) {
        None => None,
        Some((n, p)) => if p + n <= s.len() {
            Some((s.subrange(p, p + n), p + n))
        } else {
            None
        },
    }
}

/// An optional string read at `pos`.
pub open spec fn parse_opt_str(s: Seq<char>, pos: int) -> Option<(Option<Seq<char>>, int)> {
    if !(0 <= pos < s.len()) {
        None
    } else if s[pos] == 'n' {
        Some((None, pos + 1))
    } else if s[pos] == 's' {
        match parse_str(s, pos + 1) {
            None => None,
            Some((v, p)) => Some((Some(v), p)),
        }
    } else {
        None
    }
}

/// An optional number read at `pos`.
pub open spec fn parse_opt_u64(s: Seq<char>, pos: int) -> Option<(Option<u64>, int)> {
    if !(0 <= pos < s.len()) {
        None
    } else if s[pos] == 'n' {
        Some((None, pos + 1))
    } else if s[pos] == 'u' {
        match parse_u64(s, pos + 1) {
            None => None,
            Some((v, p)) => Some((Some(v), p)),
        }
    } else {
        None
    }
}

/// One record read at `pos`: the six fields in encoding order.
pub open spec fn parse_file(s: Seq<char>, pos: int) -> Option<(FileDefinitionView, int)> {
    match parse_str(s, pos) {
        None => None,
        Some((name, p1)) => match parse_str(s, p1) {
            None => None,
            Some((path, p2)) => match parse_opt_str(s, p2) {
                None => None,
                Some((id, p3)) => match parse_opt_u64(s, p3) {
                    None => None,
                    Some((size, p4)) => match parse_opt_str(s, p4) {
                        None => None,
                        Some((checksum, p5)) => match parse_opt_u64(s, p5) {
                            None => None,
                            Some((last_update, p6)) => Some(
                                (
                                    FileDefinitionView {
                                        name,
                                        path,
                                        id,
                                        size,
                                        checksum,
                                        last_update,
                                    },
                                    p6,
                                ),
                            ),
                        },
                    },
                },
            },
        },
    }
}

/// `count` records read one after the other at `pos`.
pub open spec fn parse_files(s: Seq<char>, pos: int, count: nat) -> Option<
    (Seq<FileDefinitionView>, int),
>
    decreases count,
{
    if count == 0 {
        Some((Seq::empty(), pos))
    } else {
        match parse_file(s, pos) {
            None => None,
            Some((f, p)) => match parse_files(s, p, (count - 1) as nat) {
                None => None,
                Some((fs, q)) => Some((seq![f] + fs, q)),
            },
        }
    }
}

/// The whole document: revision, count, exactly that many records, and
/// nothing after them.
pub open spec fn spec_decode_state(s: Seq<char>) -> Option<LocalStateView> {
    match parse_u64(s, 0) {
        None => None,
        Some((rev, p1)) => match parse_u64(s, p1) {
            None => None,
            Some((cnt, p2)) => match parse_files(s, p2, cnt as nat) {
                None => None,
                Some((fs, p3)) => if p3 == s.len() {
                    Some(LocalStateView { revision: rev, files: fs })
                } else {
                    None
                },
            },
        },
    }
}

/// A digit string never shrinks in value as it grows.
proof fn lemma_digits_val_nonneg(s: Seq<char>)
    requires
        all_digits(s),
    ensures
        digits_val(s) >= 0,
    decreases s.len(),
{
    if s.len() > 0 {
        assert(forall|i: int| 0 <= i < s.len() - 1 ==> s.drop_last()[i] == s[i]);
        lemma_digits_val_nonneg(s.drop_last());
    }
}

/// Extending a digit string by one digit keeps its value at least as large.
proof fn lemma_digits_val_prefix_le(s: Seq<char>, k: int)
    requires
        all_digits(s),
        0 <= k <= s.len(),
    ensures
        digits_val(s.subrange(0, k)) <= digits_val(s),
    decreases s.len() - k,
{
    if k == s.len() {
        assert(s.subrange(0, k) =~= s);
    } else {
        let a = s.subrange(0, k);
        let b = s.subrange(0, k + 1);
        assert(b.drop_last() =~= a);
        assert(b.last() == s[k]);
        assert(forall|i: int| 0 <= i < k ==> a[i] == s[i]);
        assert(all_digits(a));
        lemma_digits_val_nonneg(a);
        assert(digit_val(s[k]) >= 0);
        assert(digits_val(b) == digits_val(a) * 10 + digit_val(b.last()));
        assert(digits_val(a) * 10 >= digits_val(a)) by (nonlinear_arith)
            requires
                digits_val(a) >= 0,
        ;
        lemma_digits_val_prefix_le(s, k + 1);
    }
}

/// Read twenty digits at `pos` into a number, as [`parse_u64`] says.
fn decode_u64_at(s: &str, pos: usize) -> (r: Option<(u64, usize)>)
    ensures
        match (r, parse_u64(s@, pos as int)) {
            (Some((v, p)), Some((sv, sp))) => v == sv && p as int == sp,
            (None, None) => true,
            _ => false,
        },
{
    let n = s.unicode_len();
    if pos > n || n - pos < NUM_WIDTH {
        return None;
    }
    let ghost chunk = s@.subrange(pos as int, pos + NUM_WIDTH);
    let mut acc: u64 = 0;
    let mut k: usize = 0;
    while k < NUM_WIDTH
        invariant
            pos + NUM_WIDTH <= s@.len(),
            s@.len() <= usize::MAX,
            chunk == s@.subrange(pos as int, pos + NUM_WIDTH),
            k <= NUM_WIDTH,
            all_digits(chunk.subrange(0, k as int)),
            acc == digits_val(chunk.subrange(0, k as int)),
        decreases NUM_WIDTH - k,
    {
        let c = s.get_char(pos + k);
        proof {
            assert(chunk[k as int] == s@[pos + k]);
        }
        let d: u64 = if c == '0' {
            0
        } else if c == '1' {
            1
        } else if c == '2' {
            2
        } else if c == '3' {
            3
        } else if c == '4' {
            4
        } else if c == '5' {
            5
        } else if c == '6' {
            6
        } else if c == '7' {
            7
        } else if c == '8' {
            8
        } else if c == '9' {
            9
        } else {
            proof {
                assert(!is_digit(chunk[k as int]));
                assert(!all_digits(chunk));
            }
            return None;
        };
        proof {
            assert(is_digit(chunk[k as int]) && digit_val(chunk[k as int]) == d as int);
        }
        if acc > (u64::MAX - d) / 10 {
            proof {
                let prefix = chunk.subrange(0, k as int);
                let prefix1 = chunk.subrange(0, k + 1 as int);
                assert(prefix1.drop_last() =~= prefix);
                assert(prefix1.last() == chunk[k as int]);
                assert(digits_val(prefix1) == acc * 10 + d);
                assert(acc * 10 + d > u64::MAX) by (nonlinear_arith)
                    requires
                        acc > (u64::MAX - d) / 10,
                        0 <= d < 10,
                        acc >= 0,
                ;
                if all_digits(chunk) {
                    lemma_digits_val_prefix_le(chunk, k + 1);
                    assert(digits_val(chunk) > u64::MAX);
                }
            }
            return None;
        }
        proof {
            assert(acc * 10 + d <= u64::MAX) by (nonlinear_arith)
                requires
                    acc <= (u64::MAX - d) / 10,
                    0 <= d < 10,
                    acc >= 0,
            ;
            let prefix = chunk.subrange(0, k as int);
            let prefix1 = chunk.subrange(0, k + 1 as int);
            assert(prefix1.drop_last() =~= prefix);
            assert(prefix1.last() == chunk[k as int]);
            assert(digits_val(prefix1) == acc * 10 + d);
        }
        acc = acc * 10 + d;
        k = k + 1;
    }
    proof {
        assert(chunk.subrange(0, NUM_WIDTH as int) =~= chunk);
    }
    Some((acc, pos + NUM_WIDTH))
}

/// Read a length-prefixed string at `pos`, as [`parse_str`] says.
fn decode_str_at(s: &str, pos: usize) -> (r: Option<(String, usize)>)
    ensures
        match (r, parse_str(s@, pos as int)) {
            (Some((v, p)), Some((sv, sp))) => v@ == sv && p as int == sp,
            (None, None) => true,
            _ => false,
        },
{
    match decode_u64_at(s, pos) {
        None => None,
        Some((n, p)) => {
            let len = s.unicode_len();
            if n > (len - p) as u64 {
                return None;
            }
            let end = p + (n as usize);
            let v = s.substring_char(p, end).to_owned();
            Some((v, end))
        },
    }
}

/// Read an optional string at `pos`, as [`parse_opt_str`] says.
fn decode_opt_str_at(s: &str, pos: usize) -> (r: Option<(Option<String>, usize)>)
    ensures
        match (r, parse_opt_str(s@, pos as int)) {
            (Some((v, p)), Some((sv, sp))) => opt_view(v) == sv && p as int == sp,
            (None, None) => true,
            _ => false,
        },
{
    let len = s.unicode_len();
    if pos >= len {
        return None;
    }
    let c = s.get_char(pos);
    if c == 'n' {
        Some((None, pos + 1))
    } else if c == 's' {
        match decode_str_at(s, pos + 1) {
            None => None,
            Some((v, p)) => Some((Some(v), p)),
        }
    } else {
        None
    }
}

/// Read an optional number at `pos`, as [`parse_opt_u64`] says.
fn decode_opt_u64_at(s: &str, pos: usize) -> (r: Option<(Option<u64>, usize)>)
    ensures
        match (r, parse_opt_u64(s@, pos as int)) {
            (Some((v, p)), Some((sv, sp))) => v == sv && p as int == sp,
            (None, None) => true,
            _ => false,
        },
{
    let len = s.unicode_len();
    if pos >= len {
        return None;
    }
    let c = s.get_char(pos);
    if c == 'n' {
        Some((None, pos + 1))
    } else if c == 'u' {
        match decode_u64_at(s, pos + 1) {
            None => None,
            Some((v, p)) => Some((Some(v), p)),
        }
    } else {
        None
    }
}

/// Read one record at `pos`, as [`parse_file`] says.
fn decode_file_at(s: &str, pos: usize) -> (r: Option<(FileDefinition, usize)>)
    ensures
        match (r, parse_file(s@, pos as int)) {
            (Some((v, p)), Some((sv, sp))) => v@ == sv && p as int == sp,
            (None, None) => true,
            _ => false,
        },
{
    let (name, p1) = match decode_str_at(s, pos) {
        None => {
            return None;
        },
        Some(x) => x,
    };
    let (path, p2) = match decode_str_at(s, p1) {
        None => {
            return None;
        },
        Some(x) => x,
    };
    let (id, p3) = match decode_opt_str_at(s, p2) {
        None => {
            return None;
        },
        Some(x) => x,
    };
    let (size, p4) = match decode_opt_u64_at(s, p3) {
        None => {
            return None;
        },
        Some(x) => x,
    };
    let (checksum, p5) = match decode_opt_str_at(s, p4) {
        None => {
            return None;
        },
        Some(x) => x,
    };
    let (last_update, p6) = match decode_opt_u64_at(s, p5) {
        None => {
            return None;
        },
        Some(x) => x,
    };
    Some((FileDefinition { name, path, id, size, checksum, last_update }, p6))
}

/// Read `count` records at `pos`, as [`parse_files`] says.
fn decode_files_at(s: &str, pos: usize, count: u64) -> (r: Option<(Vec<FileDefinition>, usize)>)
    ensures
        match (r, parse_files(s@, pos as int, count as nat)) {
            (Some((v, p)), Some((sv, sp))) => defs_view(v@) == sv && p as int == sp,
            (None, None) => true,
            _ => false,
        },
    decreases count,
{
    if count == 0 {
        let out: Vec<FileDefinition> = Vec::new();
        assert(defs_view(out@) =~= Seq::<FileDefinitionView>::empty());
        Some((out, pos))
    } else {
        match decode_file_at(s, pos) {
            None => None,
            Some((fd, p)) => {
                match decode_files_at(s, p, count - 1) {
                    None => None,
                    Some((mut rest, q)) => {
                        rest.insert(0, fd);
                        proof {
                            let (f, _pp) = parse_file(s@, pos as int)->Some_0;
                            let (fs, _qq) = parse_files(s@, p as int, (count - 1) as nat)->Some_0;
                            assert(defs_view(rest@) =~= seq![f] + fs);
                        }
                        Some((rest, q))
                    },
                }
            },
        }
    }
}

/// Decode a whole document, as [`spec_decode_state`] says: the exact states
/// that [`encode_state`] writes are accepted, anything else is rejected.
pub fn decode_state(s: &str) -> (r: Option<LocalState>)
    ensures
        match (r, spec_decode_state(s@)) {
            (Some(v), Some(sv)) => v@ == sv,
            (None, None) => true,
            _ => false,
        },
{
    let (rev, p1) = match decode_u64_at(s, 0) {
        None => {
            return None;
        },
        Some(x) => x,
    };
    let (cnt, p2) = match decode_u64_at(s, p1) {
        None => {
            return None;
        },
        Some(x) => x,
    };
    let (files, p3) = match decode_files_at(s, p2, cnt) {
        None => {
            return None;
        },
        Some(x) => x,
    };
    if p3 == s.unicode_len() {
        Some(LocalState { revision: rev, files })
    } else {
        None
    }
}

/// A string short enough for its length prefix.
pub open spec fn str_encodable(s: Seq<char>) -> bool {
    s.len() <= u64::MAX
}

/// A record whose strings are all encodable.
pub open spec fn file_encodable(f: FileDefinitionView) -> bool {
    &&& str_encodable(f.name)
    &&& str_encodable(f.path)
    &&& (f.id is Some ==> str_encodable(f.id->0))
    &&& (f.checksum is Some ==> str_encodable(f.checksum->0))
}

/// A state whose records are all encodable and countable. Every state built
/// of in-memory strings and vectors is; the bound is the machine's.
pub open spec fn state_encodable(st: LocalStateView) -> bool {
    &&& st.files.len() <= u64::MAX
    &&& forall|i: int| 0 <= i < st.files.len() ==> file_encodable(#[trigger] st.files[i])
}

proof fn lemma_enc_digits_len(n: int, w: nat)
    ensures
        enc_digits(n, w).len() == w,
    decreases w,
{
    if w > 0 {
        lemma_enc_digits_len(n / 10, (w - 1) as nat);
    }
}

proof fn lemma_enc_digits_all_digits(n: int, w: nat)
    requires
        n >= 0,
    ensures
        all_digits(enc_digits(n, w)),
    decreases w,
{
    if w > 0 {
        lemma_enc_digits_all_digits(n / 10, (w - 1) as nat);
        let inner = enc_digits(n / 10, (w - 1) as nat);
        let whole = enc_digits(n, w);
        assert(whole == inner.push(digit_char(n % 10)));
        assert(is_digit(digit_char(n % 10)));
        assert forall|i: int| 0 <= i < whole.len() implies is_digit(#[trigger] whole[i]) by {
            if i < inner.len() {
                assert(whole[i] == inner[i]);
            }
        }
    }
}

proof fn lemma_pow10_20()
    ensures
        pow10(20) == 100000000000000000000,
{
    assert(pow10(0) == 1);
    assert(pow10(1) == 10);
    assert(pow10(2) == 100);
    assert(pow10(3) == 1000);
    assert(pow10(4) == 10000);
    assert(pow10(5) == 100000);
    assert(pow10(6) == 1000000);
    assert(pow10(7) == 10000000);
    assert(pow10(8) == 100000000);
    assert(pow10(9) == 1000000000);
    assert(pow10(10) == 10000000000);
    assert(pow10(11) == 100000000000);
    assert(pow10(12) == 1000000000000);
    assert(pow10(13) == 10000000000000);
    assert(pow10(14) == 100000000000000);
    assert(pow10(15) == 1000000000000000);
    assert(pow10(16) == 10000000000000000);
    assert(pow10(17) == 100000000000000000);
    assert(pow10(18) == 1000000000000000000);
    assert(pow10(19) == 10000000000000000000);
    assert(pow10(20) == 100000000000000000000);
}

proof fn lemma_digits_val_enc(n: int, w: nat)
    requires
        0 <= n < pow10(w),
    ensures
        digits_val(enc_digits(n, w)) == n,
    decreases w,
{
    if w == 0 {
        assert(pow10(0) == 1);
    } else {
        let p = pow10((w - 1) as nat);
        assert(pow10(w) == 10 * p);
        assert(n == 10 * (n / 10) + n % 10);
        assert(n / 10 < p) by {
            if n / 10 >= p {
                assert(n >= 10 * (n / 10)) by (nonlinear_arith)
                    requires
                        n >= 0,
                        n == 10 * (n / 10) + n % 10,
                        0 <= n % 10 < 10,
                ;
                assert(10 * (n / 10) >= 10 * p) by (nonlinear_arith)
                    requires
                        n / 10 >= p,
                ;
            }
        }
        lemma_digits_val_enc(n / 10, (w - 1) as nat);
        let inner = enc_digits(n / 10, (w - 1) as nat);
        let whole = enc_digits(n, w);
        assert(whole == inner.push(digit_char(n % 10)));
        assert(whole.drop_last() =~= inner);
        assert(whole.last() == digit_char(n % 10));
        assert(digit_val(digit_char(n % 10)) == n % 10);
        assert(digits_val(whole) == digits_val(inner) * 10 + n % 10);
    }
}

/// Where the text holds the encoding of `n`, parsing reads back exactly `n`
/// and stops right after it.
proof fn lemma_parse_u64_at(s: Seq<char>, pos: int, n: u64)
    requires
        0 <= pos,
        pos + NUM_WIDTH <= s.len(),
        s.subrange(pos, pos + NUM_WIDTH) == enc_u64(n),
    ensures
        parse_u64(s, pos) == Some((n, pos + NUM_WIDTH)),
{
    let chunk = s.subrange(pos, pos + NUM_WIDTH);
    lemma_enc_digits_all_digits(n as int, NUM_WIDTH as nat);
    lemma_pow10_20();
    lemma_digits_val_enc(n as int, NUM_WIDTH as nat);
    assert(all_digits(chunk));
    assert(digits_val(chunk) == n as int);
}

/// Where the text holds the encoding of `x`, parsing reads back exactly `x`.
proof fn lemma_parse_str_at(s: Seq<char>, pos: int, x: Seq<char>)
    requires
        0 <= pos,
        str_encodable(x),
        pos + enc_str(x).len() <= s.len(),
        s.subrange(pos, pos + enc_str(x).len() as int) == enc_str(x),
    ensures
        parse_str(s, pos) == Some((x, pos + enc_str(x).len())),
        enc_str(x).len() == NUM_WIDTH + x.len(),
{
    let e = enc_str(x);
    lemma_enc_digits_len(x.len() as u64 as int, NUM_WIDTH as nat);
    assert(e.len() == NUM_WIDTH + x.len());
    assert(s.subrange(pos, pos + NUM_WIDTH) =~= enc_u64(x.len() as u64)) by {
        assert forall|i: int| 0 <= i < NUM_WIDTH implies #[trigger] s.subrange(
            pos,
            pos + NUM_WIDTH,
        )[i] == enc_u64(x.len() as u64)[i] by {
            assert(s.subrange(pos, pos + NUM_WIDTH)[i] == s[pos + i]);
            assert(s[pos + i] == s.subrange(pos, pos + e.len() as int)[i]);
            assert(e[i] == enc_u64(x.len() as u64)[i]);
        }
    }
    lemma_parse_u64_at(s, pos, x.len() as u64);
    assert((x.len() as u64) as int == x.len());
    assert(s.subrange(pos + NUM_WIDTH, pos + NUM_WIDTH + x.len() as int) =~= x) by {
        assert forall|i: int|
            0 <= i < x.len() implies s.subrange(
            pos + NUM_WIDTH,
            pos + NUM_WIDTH + x.len() as int,
        )[i] == x[i] by {
            assert(s.subrange(pos + NUM_WIDTH, pos + NUM_WIDTH + x.len() as int)[i] == s[pos
                + NUM_WIDTH + i]);
            assert(s[pos + NUM_WIDTH + i] == s.subrange(pos, pos + e.len() as int)[NUM_WIDTH + i]);
            assert(e[NUM_WIDTH + i] == x[i]);
        }
    }
}

/// Where the text holds the encoding of an optional string, parsing reads it
/// back.
proof fn lemma_parse_opt_str_at(s: Seq<char>, pos: int, o: Option<Seq<char>>)
    requires
        0 <= pos,
        (o is Some ==> str_encodable(o->0)),
        pos + enc_opt_str(o).len() <= s.len(),
        s.subrange(pos, pos + enc_opt_str(o).len() as int) == enc_opt_str(o),
    ensures
        parse_opt_str(s, pos) == Some((o, pos + enc_opt_str(o).len())),
{
    let e = enc_opt_str(o);
    assert(s[pos] == s.subrange(pos, pos + e.len() as int)[0]);
    match o {
        None => {
            assert(e[0] == 'n');
        },
        Some(x) => {
            assert(e == seq!['s'] + enc_str(x));
            assert(e[0] == 's');
            assert(s[pos] == 's');
            lemma_enc_digits_len(x.len() as u64 as int, NUM_WIDTH as nat);
            assert(s.subrange(pos + 1, pos + 1 + enc_str(x).len() as int) =~= enc_str(x)) by {
                assert forall|i: int|
                    0 <= i < enc_str(x).len() implies s.subrange(
                    pos + 1,
                    pos + 1 + enc_str(x).len() as int,
                )[i] == enc_str(x)[i] by {
                    assert(s.subrange(pos + 1, pos + 1 + enc_str(x).len() as int)[i] == s[pos + 1
                        + i]);
                    assert(s[pos + 1 + i] == s.subrange(pos, pos + e.len() as int)[1 + i]);
                    assert(e[1 + i] == enc_str(x)[i]);
                }
            }
            lemma_parse_str_at(s, pos + 1, x);
        },
    }
}

/// Where the text holds the encoding of an optional number, parsing reads it
/// back.
proof fn lemma_parse_opt_u64_at(s: Seq<char>, pos: int, o: Option<u64>)
    requires
        0 <= pos,
        pos + enc_opt_u64(o).len() <= s.len(),
        s.subrange(pos, pos + enc_opt_u64(o).len() as int) == enc_opt_u64(o),
    ensures
        parse_opt_u64(s, pos) == Some((o, pos + enc_opt_u64(o).len())),
{
    let e = enc_opt_u64(o);
    assert(s[pos] == s.subrange(pos, pos + e.len() as int)[0]);
    match o {
        None => {
            assert(e[0] == 'n');
        },
        Some(v) => {
            assert(e == seq!['u'] + enc_u64(v));
            assert(e[0] == 'u');
            lemma_enc_digits_len(v as int, NUM_WIDTH as nat);
            assert(s.subrange(pos + 1, pos + 1 + NUM_WIDTH) =~= enc_u64(v)) by {
                assert forall|i: int|
                    0 <= i < NUM_WIDTH implies s.subrange(pos + 1, pos + 1 + NUM_WIDTH)[i]
                    == enc_u64(v)[i] by {
                    assert(s.subrange(pos + 1, pos + 1 + NUM_WIDTH)[i] == s[pos + 1 + i]);
                    assert(s[pos + 1 + i] == s.subrange(pos, pos + e.len() as int)[1 + i]);
                    assert(e[1 + i] == enc_u64(v)[i]);
                }
            }
            lemma_parse_u64_at(s, pos + 1, v);
        },
    }
}

/// A subrange of an established subrange equality.
proof fn lemma_subrange_part(s: Seq<char>, pos: int, e: Seq<char>, a: int, b: int)
    requires
        0 <= pos,
        pos + e.len() <= s.len(),
        s.subrange(pos, pos + e.len() as int) == e,
        0 <= a <= b <= e.len(),
    ensures
        s.subrange(pos + a, pos + b) == e.subrange(a, b),
{
    assert(s.subrange(pos + a, pos + b) =~= e.subrange(a, b)) by {
        assert forall|i: int| 0 <= i < b - a implies s.subrange(pos + a, pos + b)[i] == e.subrange(
            a,
            b,
        )[i] by {
            assert(s.subrange(pos + a, pos + b)[i] == s[pos + a + i]);
            assert(s[pos + a + i] == s.subrange(pos, pos + e.len() as int)[a + i]);
        }
    }
}

/// Where the text holds the encoding of a record, parsing reads it back.
#[verifier::rlimit(100)]
proof fn lemma_parse_file_at(s: Seq<char>, pos: int, f: FileDefinitionView)
    requires
        0 <= pos,
        file_encodable(f),
        pos + enc_file(f).len() <= s.len(),
        s.subrange(pos, pos + enc_file(f).len() as int) == enc_file(f),
    ensures
        parse_file(s, pos) == Some((f, pos + enc_file(f).len())),
{
    let e = enc_file(f);
    let e1 = enc_str(f.name);
    let e2 = enc_str(f.path);
    let e3 = enc_opt_str(f.id);
    let e4 = enc_opt_u64(f.size);
    let e5 = enc_opt_str(f.checksum);
    let e6 = enc_opt_u64(f.last_update);
    let a1 = e1.len() as int;
    let a2 = a1 + e2.len();
    let a3 = a2 + e3.len();
    let a4 = a3 + e4.len();
    let a5 = a4 + e5.len();
    let a6 = a5 + e6.len();
    assert(e.len() == a6);
    assert(e.subrange(0, a1) =~= e1);
    assert(e.subrange(a1, a2) =~= e2);
    assert(e.subrange(a2, a3) =~= e3);
    assert(e.subrange(a3, a4) =~= e4);
    assert(e.subrange(a4, a5) =~= e5);
    assert(e.subrange(a5, a6) =~= e6);
    lemma_subrange_part(s, pos, e, 0, a1);
    lemma_subrange_part(s, pos, e, a1, a2);
    lemma_subrange_part(s, pos, e, a2, a3);
    lemma_subrange_part(s, pos, e, a3, a4);
    lemma_subrange_part(s, pos, e, a4, a5);
    lemma_subrange_part(s, pos, e, a5, a6);
    lemma_parse_str_at(s, pos, f.name);
    lemma_parse_str_at(s, pos + a1, f.path);
    lemma_parse_opt_str_at(s, pos + a2, f.id);
    lemma_parse_opt_u64_at(s, pos + a3, f.size);
    lemma_parse_opt_str_at(s, pos + a4, f.checksum);
    lemma_parse_opt_u64_at(s, pos + a5, f.last_update);
}

/// Where the text holds the encoding of a record list, parsing that many
/// records reads the list back.
proof fn lemma_parse_files_at(s: Seq<char>, pos: int, fs: Seq<FileDefinitionView>)
    requires
        0 <= pos,
        forall|i: int| 0 <= i < fs.len() ==> file_encodable(#[trigger] fs[i]),
        pos + enc_files(fs).len() <= s.len(),
        s.subrange(pos, pos + enc_files(fs).len() as int) == enc_files(fs),
    ensures
        parse_files(s, pos, fs.len()) == Some((fs, pos + enc_files(fs).len())),
    decreases fs.len(),
{
    if fs.len() == 0 {
        assert(parse_files(s, pos, 0) == Some((Seq::<FileDefinitionView>::empty(), pos)));
        assert(fs =~= Seq::<FileDefinitionView>::empty());
    } else {
        let e = enc_files(fs);
        let ef = enc_file(fs.first());
        let rest = fs.drop_first();
        let er = enc_files(rest);
        assert(e == ef + er);
        assert(e.subrange(0, ef.len() as int) =~= ef);
        assert(e.subrange(ef.len() as int, e.len() as int) =~= er);
        lemma_subrange_part(s, pos, e, 0, ef.len() as int);
        lemma_subrange_part(s, pos, e, ef.len() as int, e.len() as int);
        assert(fs.first() == fs[0]);
        lemma_parse_file_at(s, pos, fs.first());
        assert(forall|i: int| 0 <= i < rest.len() ==> rest[i] == fs[i + 1]);
        lemma_parse_files_at(s, pos + ef.len(), rest);
        assert(seq![fs.first()] + rest =~= fs);
        assert((fs.len() - 1) as nat == rest.len());
    }
}

/// Round trip: decoding what was encoded yields the state back, exactly —
/// the same revision and the same records in the same order.
pub proof fn lemma_state_round_trip(st: LocalStateView)
    requires
        state_encodable(st),
    ensures
        spec_decode_state(spec_encode_state(st)) == Some(st),
{
    let s = spec_encode_state(st);
    let e1 = enc_u64(st.revision);
    let e2 = enc_u64(st.files.len() as u64);
    let ef = enc_files(st.files);
    lemma_enc_digits_len(st.revision as int, NUM_WIDTH as nat);
    lemma_enc_digits_len(st.files.len() as u64 as int, NUM_WIDTH as nat);
    assert(s == e1 + e2 + ef);
    assert(s.subrange(0, s.len() as int) =~= s);
    lemma_subrange_part(s, 0, s, 0, NUM_WIDTH as int);
    assert(s.subrange(0, NUM_WIDTH as int) =~= e1);
    lemma_parse_u64_at(s, 0, st.revision);
    assert(s.subrange(NUM_WIDTH as int, 2 * NUM_WIDTH) =~= e2) by {
        assert forall|i: int| 0 <= i < NUM_WIDTH implies s.subrange(NUM_WIDTH as int, 2
            * NUM_WIDTH)[i] == e2[i] by {
            assert(s.subrange(NUM_WIDTH as int, 2 * NUM_WIDTH)[i] == s[NUM_WIDTH + i]);
            assert(s[NUM_WIDTH + i] == (e1 + e2 + ef)[NUM_WIDTH + i]);
        }
    }
    lemma_parse_u64_at(s, NUM_WIDTH as int, st.files.len() as u64);
    assert(s.subrange(2 * NUM_WIDTH, s.len() as int) =~= ef) by {
        assert forall|i: int| 0 <= i < ef.len() implies s.subrange(2 * NUM_WIDTH, s.len() as int)[i]
            == ef[i] by {
            assert(s.subrange(2 * NUM_WIDTH, s.len() as int)[i] == s[2 * NUM_WIDTH + i]);
            assert(s[2 * NUM_WIDTH + i] == (e1 + e2 + ef)[2 * NUM_WIDTH + i]);
        }
    }
    lemma_parse_files_at(s, 2 * NUM_WIDTH, st.files);
    assert((st.files.len() as u64) as nat == st.files.len());
}

} // verus!
