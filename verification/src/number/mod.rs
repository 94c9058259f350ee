//! Numbers: a header byte with the first symbol, then one byte for each
//! further symbol. The symbol count travels in the high halves of the bytes
//! after the header, three bits at a time, lowest bits first.

pub mod header_byte;
pub mod int_or_float;
pub mod non_header_byte;

use vstd::prelude::*;
use crate::ascii::{DIGIT_0, DIGIT_9, FULL_STOP, LOWER_E, MINUS_SIGN, UPPER_E};
use crate::error::ParseError;
use crate::json::{image_of, rewritten, splice, Json, Token};
use crate::number::header_byte::{header_byte, is_number_start, read_header, HeaderByte};
use crate::number::int_or_float::IntOrFloat;
use crate::number::non_header_byte::{length_component, NonHeaderByte, HAS_LENGTH_MASK};
use crate::runs::{lemma_run_len_is, lemma_run_len_props, run_len};

verus! {

pub const MINUS: u8 = 0b1010;

pub const EXPONENT: u8 = 0b1011;

pub const DOT: u8 = 0b1100;

pub const VALUE_MASK: u8 = 0b0000_1111;

/// The largest number of symbols that a number may have.
pub const MAX_SYMBOLS: usize = 8191;

/// Whether the byte may stand in a number.
pub open spec fn is_number_byte(b: u8) -> bool {
    b == MINUS_SIGN || (DIGIT_0 <= b <= DIGIT_9) || b == FULL_STOP || b == LOWER_E || b == UPPER_E
}

/// The four-bit code of a byte of a number.
pub open spec fn symbol_code(b: u8) -> u8 {
    if b == MINUS_SIGN {
        MINUS
    } else if b == LOWER_E || b == UPPER_E {
        EXPONENT
    } else if b == FULL_STOP {
        DOT
    } else {
        (b - DIGIT_0) as u8
    }
}

pub open spec fn number_pred() -> spec_fn(u8) -> bool {
    |b: u8| is_number_byte(b)
}

/// The number of bytes at the front of `s` that may stand in a number.
pub open spec fn number_run(s: Seq<u8>) -> nat {
    run_len(s, number_pred())
}

/// What remains of the symbol count `n` for the byte at offset `i` of the
/// record and those after it: three bits less with each byte after the first.
pub open spec fn count_left(n: nat, i: nat) -> nat
    decreases i,
{
    if i <= 1 {
        n
    } else {
        count_left(n, (i - 1) as nat) / 8
    }
}

/// The byte at offset `i` of the record of a number of `n` symbols, for the
/// symbol with the code `code`.
pub open spec fn number_byte(n: nat, i: nat, code: u8) -> u8 {
    if i == 0 {
        header_byte(n, code)
    } else {
        (length_component(count_left(n, i)) + code) as u8
    }
}

/// The codes of the first `n` bytes of `s`.
pub open spec fn symbols_of(s: Seq<u8>, n: nat) -> Seq<u8> {
    Seq::new(n, |i: int| symbol_code(s[i]))
}

/// The record of a number, from the codes of its symbols.
pub open spec fn number_image(symbols: Seq<u8>) -> Seq<u8> {
    Seq::new(symbols.len(), |i: int| number_byte(symbols.len(), i as nat, symbols[i]))
}

/// The number at the front of `s`: a digit or `-`, and every byte after it
/// that may stand in a number. A `-` alone is no number. Whether the symbols
/// of a longer run make sense together is for the reader of the record to
/// say.
#[verifier::opaque]
pub open spec fn json_number(s: Seq<u8>) -> Result<Token, ParseError> {
    if s.len() == 0 || !is_number_start(s[0]) {
        Err(ParseError::NotMatched)
    } else if number_run(s) > MAX_SYMBOLS {
        Err(ParseError::Overflow)
    } else if number_run(s) == 1 && s[0] == MINUS_SIGN {
        Err(ParseError::Malformed)
    } else {
        let symbols = symbols_of(s, number_run(s));
        Ok(Token { tree: Json::Number(symbols), image: number_image(symbols) })
    }
}

pub open spec fn length_pred() -> spec_fn(u8) -> bool {
    |b: u8| b >= HAS_LENGTH_MASK
}

pub open spec fn pow8(k: nat) -> nat
    decreases k,
{
    if k == 0 {
        1
    } else {
        8 * pow8((k - 1) as nat)
    }
}

/// The symbol count that the first `k` bytes of `t` carry, three bits each,
/// lowest bits first.
pub open spec fn count_of(t: Seq<u8>, k: nat) -> nat
    decreases k,
{
    if k == 0 {
        0
    } else {
        count_of(t, (k - 1) as nat) + (((t[k - 1] / 16) % 8) as nat) * pow8((k - 1) as nat)
    }
}

/// The number record at the front of `b`: the codes of its symbols, and its
/// size, which is the number of its symbols.
///
/// A record of several symbols spells their count in the bytes after the
/// header that have their high bit set. More than five such bytes, or a count
/// above 8191, is too long; a count that the bytes at hand cannot hold, or
/// below two, is malformed.
///
/// Every byte with its high bit set that follows the header at once is taken
/// for a part of the count. A number of two symbols has one such byte, its
/// last: where a byte of `0x80` or more follows that number at once, it is
/// read as one more part of the count, and the record reads as another one
/// or as none. Encoding never puts such a byte there: padding follows a
/// number, or the end of the payload, and a reader of a whole buffer cuts
/// the buffer at the end of the value.
pub open spec fn number_record(b: Seq<u8>) -> Result<(Seq<u8>, nat), ParseError> {
    if b.len() == 0 {
        Err(ParseError::NotMatched)
    } else {
        match read_header(b[0]) {
            Err(e) => Err(e),
            Ok(header) => if !header.multibyte {
                Ok((seq![b[0] % 16], 1))
            } else {
                let t = b.skip(1);
                let k = run_len(t, length_pred());
                if k > 5 || count_of(t, k) > MAX_SYMBOLS {
                    Err(ParseError::Overflow)
                } else if count_of(t, k) < 2 || count_of(t, k) > b.len() {
                    Err(ParseError::Malformed)
                } else {
                    Ok((Seq::new(count_of(t, k), |i: int| b[i] % 16), count_of(t, k)))
                }
            },
        }
    }
}

/// The number that begins with the symbol `code`.
pub open spec fn start_number(code: u8) -> Result<IntOrFloat, ParseError> {
    if code <= 9 {
        Ok(IntOrFloat::Integer { value: code as i64, negative: false })
    } else if code == MINUS {
        Ok(IntOrFloat::Integer { value: 0, negative: true })
    } else {
        Err(ParseError::Malformed)
    }
}

/// The number `st` after one more symbol. A digit is appended where the
/// digits have room for it. An integer that has none is too large. A decimal
/// that has none stays as it is: a digit so far behind the dot is dropped,
/// which changes the number by less than one part in ten to the power of 37.
/// A `-` marks the number as negative, a `.` turns it into a decimal, each
/// once only. An exponent is out of scope.
pub open spec fn step_number(st: IntOrFloat, code: u8) -> Result<IntOrFloat, ParseError> {
    if code <= 9 {
        if st.has_room(code) {
            Ok(st.appended(code))
        } else if st is Float {
            Ok(st)
        } else {
            Err(ParseError::Overflow)
        }
    } else if code == MINUS {
        if st.is_negative() {
            Err(ParseError::Malformed)
        } else {
            Ok(st.negated())
        }
    } else if code == EXPONENT {
        Err(ParseError::Unsupported)
    } else if code == DOT {
        if st is Float {
            Err(ParseError::Malformed)
        } else {
            Ok(st.dotted())
        }
    } else {
        Err(ParseError::Malformed)
    }
}

/// The number that the first `k` symbols spell.
pub open spec fn fold_number(symbols: Seq<u8>, k: nat) -> Result<IntOrFloat, ParseError>
    decreases k,
{
    if k == 0 {
        Err(ParseError::Malformed)
    } else if k == 1 {
        start_number(symbols[0])
    } else {
        match fold_number(symbols, (k - 1) as nat) {
            Err(e) => Err(e),
            Ok(st) => step_number(st, symbols[k - 1]),
        }
    }
}

/// The number that the symbols spell, read from left to right.
pub open spec fn number_value(symbols: Seq<u8>) -> Result<IntOrFloat, ParseError> {
    fold_number(symbols, symbols.len())
}

/// What reading the number record at the front of `b` gives: the number and
/// the size of the record.
pub open spec fn read_number(b: Seq<u8>) -> Result<(IntOrFloat, nat), ParseError> {
    match number_record(b) {
        Err(e) => Err(e),
        Ok((symbols, n)) => match number_value(symbols) {
            Err(e) => Err(e),
            Ok(v) => Ok((v, n)),
        },
    }
}

/// The number of bytes that it takes to carry the count `n`, three bits
/// each.
pub open spec fn groups(n: nat) -> nat
    decreases n,
{
    if n == 0 {
        0
    } else {
        1 + groups(n / 8)
    }
}

/// Whether the codes can be those of a number that was encoded: at most
/// 8191 of them, a digit or `-` first, a digit where there is but one.
pub open spec fn valid_symbols(symbols: Seq<u8>) -> bool {
    &&& 1 <= symbols.len() <= MAX_SYMBOLS
    &&& symbols[0] <= MINUS
    &&& symbols.len() == 1 ==> symbols[0] <= 9
    &&& forall|i: int| 0 <= i < symbols.len() ==> #[trigger] symbols[i] <= DOT
}

proof fn lemma_count_left(n: nat, i: nat)
    requires
        i >= 1,
    ensures
        count_left(n, i) != 0 <==> i <= groups(n),
        i <= groups(n) ==> groups(count_left(n, i)) == groups(n) - (i - 1),
        count_left(n, i + 1) == count_left(n, i) / 8,
    decreases i,
{
    if i > 1 {
        lemma_count_left(n, (i - 1) as nat);
        let m = count_left(n, (i - 1) as nat);
        assert(count_left(n, i) == m / 8);
        if m != 0 {
            assert(groups(m) == 1 + groups(m / 8));
        }
    }
}

proof fn lemma_groups_bound(n: nat)
    requires
        n <= MAX_SYMBOLS,
    ensures
        groups(n) <= 5,
        n >= 2 ==> 1 <= groups(n) <= n - 1,
{
    reveal_with_fuel(groups, 7);
}

/// The bytes behind the header of an encoded number carry its count.
proof fn lemma_count_carried(n: nat, t: Seq<u8>, j: nat)
    requires
        j <= groups(n),
        j <= t.len(),
        forall|i: int|
            0 <= i < j ==> ((#[trigger] t[i] / 16) % 8) as nat == count_left(n, (i + 1) as nat)
                % 8,
    ensures
        count_of(t, j) + count_left(n, j + 1) * pow8(j) == n,
    decreases j,
{
    if j == 0 {
        assert(pow8(0) == 1);
        assert(count_left(n, 1) == n);
        assert(n * 1 == n) by (nonlinear_arith);
    } else {
        let i = (j - 1) as nat;
        lemma_count_carried(n, t, i);
        lemma_count_left(n, j);
        let a = count_left(n, j);
        let q = count_left(n, j + 1);
        let r = a % 8;
        let w = pow8(i);
        assert(q == a / 8);
        assert(((t[i as int] / 16) % 8) as nat == r);
        assert(pow8(j) == 8 * w);
        assert(count_of(t, j) == count_of(t, i) + r * w);
        assert(r * w + q * (8 * w) == a * w) by (nonlinear_arith)
            requires
                a == 8 * q + r,
        ;
    }
}

/// What the parts of a byte behind the header are.
proof fn lemma_byte_parts(left: nat, code: u8)
    requires
        code <= DOT,
    ensures
        length_component(left) + code < 256,
        ((length_component(left) + code) as u8) % 16 == code,
        ((length_component(left) + code) as u8) >= HAS_LENGTH_MASK <==> left != 0,
        left != 0 ==> ((((length_component(left) + code) as u8) / 16) % 8) as nat == left % 8,
{
}

/// What the header of an encoded number reads as.
proof fn lemma_header_reads_back(n: nat, code: u8)
    requires
        code <= MINUS,
        n == 1 ==> code <= 9,
    ensures
        read_header(header_byte(n, code)) is Ok,
        read_header(header_byte(n, code))->Ok_0.multibyte == (n != 1),
        header_byte(n, code) % 16 == code,
        header_byte(n, code) != 0,
{
}

/// The bytes behind the header of an encoded number, cut off from what
/// follows the number: which of them carry a part of the count, and what the
/// count is that they carry.
proof fn lemma_count_reads_back(symbols: Seq<u8>, rest: Seq<u8>)
    requires
        valid_symbols(symbols),
        symbols.len() >= 2,
        rest.len() == 0 || rest[0] < HAS_LENGTH_MASK,
    ensures
        run_len((number_image(symbols) + rest).skip(1), length_pred()) == groups(symbols.len()),
        count_of((number_image(symbols) + rest).skip(1), groups(symbols.len())) == symbols.len(),
        groups(symbols.len()) <= 5,
{
    let n = symbols.len();
    let image = number_image(symbols);
    let b = image + rest;
    let t = b.skip(1);
    let k = groups(n);
    lemma_groups_bound(n);
    assert forall|i: int| 0 <= i < n - 1 implies #[trigger] t[i] == (length_component(
        count_left(n, (i + 1) as nat),
    ) + symbols[i + 1]) as u8 by {
        assert(t[i] == b[i + 1]);
        assert(b[i + 1] == image[i + 1]);
    }
    assert forall|i: int| 0 <= i < k implies length_pred()(#[trigger] t[i]) by {
        lemma_count_left(n, (i + 1) as nat);
        lemma_byte_parts(count_left(n, (i + 1) as nat), symbols[i + 1]);
    }
    assert forall|i: int| 0 <= i < k implies ((#[trigger] t[i] / 16) % 8) as nat == count_left(
        n,
        (i + 1) as nat,
    ) % 8 by {
        lemma_count_left(n, (i + 1) as nat);
        lemma_byte_parts(count_left(n, (i + 1) as nat), symbols[i + 1]);
    }
    if k < t.len() {
        if k < n - 1 {
            lemma_count_left(n, k + 1);
            lemma_byte_parts(count_left(n, k + 1), symbols[k as int + 1]);
        } else {
            assert(t[k as int] == rest[0]);
        }
    }
    lemma_run_len_is(t, length_pred(), k);
    lemma_count_carried(n, t, k);
    lemma_count_left(n, k + 1);
    assert(count_left(n, k + 1) == 0);
    assert(0 * pow8(k) == 0) by (nonlinear_arith);
}

/// An encoded number reads back as the symbols that it was made from,
/// whatever follows it, as long as that does not look like one more byte of
/// the symbol count.
pub proof fn lemma_number_reads_back(symbols: Seq<u8>, rest: Seq<u8>)
    requires
        valid_symbols(symbols),
        rest.len() == 0 || rest[0] < HAS_LENGTH_MASK,
    ensures
        number_record(number_image(symbols) + rest) == Ok::<(Seq<u8>, nat), ParseError>(
            (symbols, symbols.len()),
        ),
        number_image(symbols).len() == symbols.len(),
        number_image(symbols)[0] != 0,
{
    let n = symbols.len();
    let image = number_image(symbols);
    let b = image + rest;
    assert(b[0] == image[0]);
    assert(image[0] == header_byte(n, symbols[0]));
    lemma_header_reads_back(n, symbols[0]);
    if n == 1 {
        assert(seq![b[0] % 16] =~= symbols);
    } else {
        lemma_count_reads_back(symbols, rest);
        let read = Seq::new(n, |i: int| b[i] % 16);
        assert forall|i: int| 0 <= i < n implies read[i] == symbols[i] by {
            assert(b[i] == image[i]);
            if i > 0 {
                lemma_byte_parts(count_left(n, i as nat), symbols[i]);
            }
        }
        assert(read =~= symbols);
    }
}

/// The symbols of a number of the text are codes of an encoded number.
pub proof fn lemma_symbols_valid(s: Seq<u8>)
    ensures
        json_number(s) matches Ok(token) ==> token.tree matches Json::Number(symbols)
            && valid_symbols(symbols) && token.image == number_image(symbols),
{
    reveal(json_number);
    if json_number(s) is Ok {
        lemma_run_len_props(s, number_pred());
        let symbols = symbols_of(s, number_run(s));
        assert forall|i: int| 0 <= i < symbols.len() implies #[trigger] symbols[i] <= DOT by {
            assert(number_pred()(s[i]));
        }
        assert(number_pred()(s[0]));
    }
}

proof fn lemma_count_bound(t: Seq<u8>, k: nat)
    ensures
        count_of(t, k) < pow8(k),
        pow8(k) >= 1,
    decreases k,
{
    if k > 0 {
        lemma_count_bound(t, (k - 1) as nat);
        let d = ((t[k - 1] / 16) % 8) as nat;
        let w = pow8((k - 1) as nat);
        assert(d * w <= 7 * w) by (nonlinear_arith)
            requires
                d <= 7,
        ;
    }
}

proof fn lemma_pow8_values()
    ensures
        pow8(0) == 1,
        pow8(1) == 8,
        pow8(2) == 64,
        pow8(3) == 512,
        pow8(4) == 4096,
        pow8(5) == 32768,
{
    reveal_with_fuel(pow8, 6);
}

pub struct Number;

impl Number {
    /// Rewrites the number at the cursor into its record and moves the cursor
    /// past it. Where the number is refused, nothing changes.
    pub fn bitmix_to_tlv(data: &mut [u8], pos: &mut usize) -> (r: Result<(), ParseError>)
        requires
            *old(pos) <= old(data)@.len(),
        ensures
            rewritten(
                old(data)@,
                *old(pos) as int,
                image_of(json_number(old(data)@.skip(*old(pos) as int))),
                r,
                final(data)@,
                *final(pos) as int,
            ),
            r is Err ==> final(data)@ == old(data)@ && *final(pos) == *old(pos),
    {
        let ghost d0 = data@;
        let p = *pos;
        let ghost s = d0.skip(p as int);
        reveal(json_number);
        if p >= data.len() {
            return Err(ParseError::NotMatched);
        }
        assert(s[0] == d0[p as int]);
        let first = data[p];
        if !(first == MINUS_SIGN || (DIGIT_0 <= first && first <= DIGIT_9)) {
            return Err(ParseError::NotMatched);
        }
        let size = data.len();
        let mut region_size: usize = 0;
        while region_size + p < size
            invariant
                data@ == d0,
                size == d0.len(),
                p + region_size <= d0.len(),
                forall|i: int| p <= i < p + region_size ==> is_number_byte(#[trigger] d0[i]),
            ensures
                p + region_size < d0.len() ==> !is_number_byte(d0[p + region_size]),
            decreases d0.len() - region_size,
        {
            let b = data[region_size + p];
            if b == MINUS_SIGN || (DIGIT_0 <= b && b <= DIGIT_9) || b == FULL_STOP || b == LOWER_E
                || b == UPPER_E {
                region_size += 1;
            } else {
                break;
            }
        }
        proof {
            assert forall|i: int| 0 <= i < region_size implies number_pred()(#[trigger] s[i]) by {
                assert(s[i] == d0[p + i]);
            }
            lemma_run_len_is(s, number_pred(), region_size as nat);
        }
        if region_size > MAX_SYMBOLS {
            return Err(ParseError::Overflow);
        }
        if region_size == 1 && first == MINUS_SIGN {
            return Err(ParseError::Malformed);
        }
        let ghost symbols = symbols_of(s, region_size as nat);
        let header = HeaderByte::write(data, p, region_size);
        let multibyte = match header {
            Some(h) => h.multibyte,
            None => false,
        };
        if !multibyte {
            *pos = p + 1;
            assert(data@ =~= splice(d0, p as int, number_image(symbols)));
            return Ok(());
        }
        let mut length_left_to_write = region_size;
        let mut idx: usize = 1;
        while idx < region_size
            invariant
                1 <= idx <= region_size,
                p + region_size <= d0.len() <= usize::MAX,
                data@.len() == d0.len(),
                length_left_to_write == count_left(region_size as nat, idx as nat),
                forall|i: int| p <= i < p + region_size ==> is_number_byte(#[trigger] d0[i]),
                forall|j: int| 0 <= j < p ==> data@[j] == d0[j],
                forall|j: int|
                    p <= j < p + idx ==> #[trigger] data@[j] == number_byte(
                        region_size as nat,
                        (j - p) as nat,
                        symbol_code(d0[j]),
                    ),
                forall|j: int| p + idx <= j < d0.len() ==> data@[j] == d0[j],
            decreases region_size - idx,
        {
            assert(is_number_byte(d0[p + idx]));
            length_left_to_write = NonHeaderByte::rewrite_to_tlv(
                data,
                p + idx,
                length_left_to_write,
            );
            idx += 1;
        }
        *pos = p + region_size;
        proof {
            let image = number_image(symbols);
            assert forall|j: int| 0 <= j < region_size implies data@[p + j] == image[j] by {
                assert(s[j] == d0[p + j]);
                assert(data@[p + j] == number_byte(
                    region_size as nat,
                    j as nat,
                    symbol_code(d0[p + j]),
                ));
            }
            assert(data@ =~= splice(d0, p as int, image));
        }
        Ok(())
    }

    /// Reads the number record at the cursor and moves the cursor past it.
    pub fn decode_tlv(data: &[u8], pos: &mut usize) -> (r: Result<IntOrFloat, ParseError>)
        ensures
            *old(pos) > data@.len() ==> r == Err::<IntOrFloat, ParseError>(
                ParseError::NotMatched,
            ),
            *old(pos) <= data@.len() ==> match read_number(data@.skip(*old(pos) as int)) {
                Ok((v, n)) => r == Ok::<IntOrFloat, ParseError>(v) && *final(pos) == *old(pos) + n,
                Err(e) => r == Err::<IntOrFloat, ParseError>(e),
            },
            r is Err ==> *final(pos) == *old(pos),
            r is Ok ==> *final(pos) <= data@.len() && r->Ok_0.wf(),
    {
        let p = *pos;
        if p >= data.len() {
            return Err(ParseError::NotMatched);
        }
        let ghost b = data@.skip(p as int);
        assert(b[0] == data@[p as int]);
        let header = match HeaderByte::read(data, p) {
            Ok(h) => h,
            Err(e) => {
                return Err(e);
            },
        };
        if !header.multibyte {
            *pos = p + 1;
            proof {
                let symbols = seq![b[0] % 16];
                assert(number_record(b) == Ok::<(Seq<u8>, nat), ParseError>((symbols, 1)));
                assert(symbols[0] == b[0] % 16);
            }
            return Ok(IntOrFloat::Integer { value: (header.char - DIGIT_0) as i64, negative: false });
        }
        let ghost t = b.skip(1);
        let size = data.len();
        let mut k: usize = 0;
        let mut length: usize = 0;
        let mut weight: usize = 1;
        let mut too_long = false;
        proof {
            lemma_pow8_values();
        }
        while p + 1 + k < size && data[p + 1 + k] >= HAS_LENGTH_MASK
            invariant_except_break
                !too_long,
            invariant
                k <= 5,
                size == data@.len(),
                p + 1 + k <= size,
                t == data@.skip(p as int).skip(1),
                forall|i: int| 0 <= i < k ==> length_pred()(#[trigger] t[i]),
                length == count_of(t, k as nat),
                weight == pow8(k as nat),
                weight <= 32768,
            ensures
                too_long ==> k == 5 && p + 1 + k < size && data@[p + 1 + k] >= HAS_LENGTH_MASK,
                !too_long ==> !(p + 1 + k < size && data@[p + 1 + k] >= HAS_LENGTH_MASK),
            decreases size - k,
        {
            if k == 5 {
                too_long = true;
                break;
            }
            proof {
                assert(t[k as int] == data@[p + 1 + k]);
                lemma_count_bound(t, k as nat);
                lemma_pow8_values();
                let d = ((t[k as int] / 16) % 8) as nat;
                assert(d * weight <= 7 * weight) by (nonlinear_arith)
                    requires
                        d <= 7,
                ;
            }
            length = length + (((data[p + 1 + k] / 16) % 8) as usize) * weight;
            weight = weight * 8;
            k += 1;
        }
        proof {
            if p + 1 + k < size {
                assert(t[k as int] == data@[p + 1 + k]);
            }
            if too_long {
                lemma_run_len_props(t, length_pred());
                let r = run_len(t, length_pred());
                if r <= 5 {
                    assert(length_pred()(t[r as int]));
                }
            } else {
                lemma_run_len_is(t, length_pred(), k as nat);
            }
        }
        if too_long || length > MAX_SYMBOLS {
            return Err(ParseError::Overflow);
        }
        if length < 2 || length > size - p {
            return Err(ParseError::Malformed);
        }
        let ghost symbols = Seq::new(length as nat, |i: int| b[i] % 16);
        assert(number_record(b) == Ok::<(Seq<u8>, nat), ParseError>((symbols, length as nat)));
        let mut result = if header.char == MINUS_SIGN {
            IntOrFloat::Integer { value: 0, negative: true }
        } else {
            IntOrFloat::Integer { value: (header.char - DIGIT_0) as i64, negative: false }
        };
        assert(Ok::<IntOrFloat, ParseError>(result) == fold_number(symbols, 1));
        let mut idx: usize = 1;
        let mut failure: Option<ParseError> = None;
        while idx < length
            invariant_except_break
                failure is None,
            invariant
                1 <= idx <= length,
                size == data@.len(),
                p + length <= size,
                b == data@.skip(p as int),
                symbols == Seq::new(length as nat, |i: int| b[i] % 16),
                Ok::<IntOrFloat, ParseError>(result) == fold_number(symbols, idx as nat),
                result.wf(),
            ensures
                failure matches Some(e) ==> fold_number(symbols, length as nat) == Err::<
                    IntOrFloat,
                    ParseError,
                >(e),
                failure is None ==> idx == length,
            decreases length - idx,
        {
            assert(symbols[idx as int] == data@[p + idx] % 16);
            let ghost before = result;
            match NonHeaderByte::decode_tlv(data, p + idx) {
                Err(e) => {
                    failure = Some(e);
                },
                Ok(NonHeaderByte::Minus { .. }) => {
                    if is_negative(&result) {
                        failure = Some(ParseError::Malformed);
                    } else {
                        result.negate();
                    }
                },
                Ok(NonHeaderByte::Exponent { .. }) => {
                    failure = Some(ParseError::Unsupported);
                },
                Ok(NonHeaderByte::Dot { .. }) => {
                    if is_float(&result) {
                        failure = Some(ParseError::Malformed);
                    } else {
                        result.add_dot();
                    }
                },
                Ok(NonHeaderByte::Digit { char, .. }) => {
                    if result.fits(char - DIGIT_0) {
                        result.append(char - DIGIT_0);
                    } else if !is_float(&result) {
                        failure = Some(ParseError::Overflow);
                    }
                },
            }
            if let Some(e) = failure {
                proof {
                    assert(step_number(before, symbols[idx as int]) == Err::<
                        IntOrFloat,
                        ParseError,
                    >(e));
                    lemma_fold_fails(symbols, (idx + 1) as nat, length as nat);
                }
                break;
            }
            assert(step_number(before, symbols[idx as int]) == Ok::<IntOrFloat, ParseError>(result));
            idx += 1;
        }
        if let Some(e) = failure {
            return Err(e);
        }
        *pos = p + length;
        Ok(result)
    }

    /// Moves the cursor past the number record at it, and says whether one
    /// could be read there.
    pub fn skip_tlv(data: &[u8], pos: &mut usize) -> (hit: bool)
        ensures
            hit <==> *old(pos) <= data@.len() && read_number(data@.skip(*old(pos) as int)) is Ok,
            hit ==> *final(pos) == *old(pos) + read_number(
                data@.skip(*old(pos) as int),
            )->Ok_0.1,
            !hit ==> *final(pos) == *old(pos),
    {
        Self::decode_tlv(data, pos).is_ok()
    }
}

fn is_negative(n: &IntOrFloat) -> (r: bool)
    ensures
        r == n.is_negative(),
{
    match n {
        IntOrFloat::Integer { negative, .. } => *negative,
        IntOrFloat::Float { negative, .. } => *negative,
    }
}

fn is_float(n: &IntOrFloat) -> (r: bool)
    ensures
        r == (*n is Float),
{
    match n {
        IntOrFloat::Integer { .. } => false,
        IntOrFloat::Float { .. } => true,
    }
}

/// Once the symbols read so far spell no number, no further symbol mends it.
proof fn lemma_fold_fails(symbols: Seq<u8>, k: nat, n: nat)
    requires
        1 <= k <= n,
        fold_number(symbols, k) is Err,
    ensures
        fold_number(symbols, n) == fold_number(symbols, k),
    decreases n - k,
{
    if k < n {
        lemma_fold_fails(symbols, k, (n - 1) as nat);
    }
}

} // verus!
