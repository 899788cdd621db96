//! Canonical Huffman tables: the code map built from per-length symbol
//! buckets, the bit-level entropy decoder driven by it, and the proofs
//! that the assignment is prefix-free and decoding deterministic.

use vstd::prelude::*;
use vstd::arithmetic::power2::{pow2, lemma2_to64, lemma_pow2_strictly_increases};

use crate::errors::ParserError;

verus! {

/// The four table identities a Huffman-table definition may declare,
/// drawn from the (class nibble, id nibble) pair of its first byte.
#[derive(Debug, PartialEq, Eq, Structural, Clone, Copy)]
pub enum DHTType {
    LuminanceDC,
    LuminanceAC,
    ChrominanceDC,
    ChrominanceAC,
}

/// A parsed Huffman table: sixteen ordered symbol buckets, one per code
/// length 1..=16 (bucket index = code length - 1). Bucket order is
/// significant: it fixes the assignment order within a code length.
#[derive(Debug, PartialEq, Eq, Clone)]
pub struct HuffmanTable {
    pub class: DHTType,
    pub symbols: Vec<Vec<u8>>,
}

/// Mathematical image of a `HuffmanTable`.
pub struct HuffmanTableView {
    pub class: DHTType,
    pub symbols: Seq<Seq<u8>>,
}

impl View for HuffmanTable {
    type V = HuffmanTableView;

    open spec fn view(&self) -> HuffmanTableView {
        HuffmanTableView {
            class: self.class,
            symbols: Seq::new(self.symbols@.len(), |i: int| self.symbols@[i]@),
        }
    }
}

/// The numeric value of the first code word of length `len` under the
/// canonical assignment: lengths are visited in increasing order, each
/// bucket advances the running value by its size, and the value is
/// doubled between lengths.
pub open spec fn first_code(buckets: Seq<Seq<u8>>, len: int) -> nat
    decreases len,
{
    if len <= 1 {
        0
    } else {
        2 * (first_code(buckets, len - 1) + buckets[len - 2].len())
    }
}

/// Bucket counts admit a canonical assignment: sixteen buckets, and for
/// every length the assignment stays within the available bit patterns.
pub open spec fn wf_buckets(buckets: Seq<Seq<u8>>) -> bool {
    &&& buckets.len() == 16
    &&& forall|l: int|
        1 <= l <= 16 ==> first_code(buckets, l) + buckets[l - 1].len() <= pow2(l as nat)
}

/// The symbol the canonical code stores under an `len`-bit pattern whose
/// numeric value is `code`, or `None` where no code word of that length
/// has that value.
pub open spec fn code_symbol(buckets: Seq<Seq<u8>>, len: int, code: int) -> Option<u8> {
    if 1 <= len <= 16 && buckets.len() == 16 && first_code(buckets, len) <= code
        < first_code(buckets, len) + buckets[len - 1].len() {
        Some(buckets[len - 1][code - first_code(buckets, len)])
    } else {
        None
    }
}

/// One entry of a canonical code map: a bit pattern, given as its
/// length and its numeric value, and the symbol it decodes to.
#[derive(Debug, PartialEq, Eq, Structural, Clone, Copy)]
pub struct CodeEntry {
    pub length: u8,
    pub code: u16,
    pub symbol: u8,
}

/// The entry stores exactly the code word that the canonical assignment
/// gives: its pattern value lies in the range its length-bucket covers,
/// and its symbol is the bucket element at that offset.
pub open spec fn entry_matches(buckets: Seq<Seq<u8>>, e: CodeEntry) -> bool {
    code_symbol(buckets, e.length as int, e.code as int) == Some(e.symbol)
}

/// Strict assignment order on entries: shorter codes first, and within a
/// length, smaller pattern values first.
pub open spec fn entry_below(a: CodeEntry, b: CodeEntry) -> bool {
    a.length < b.length || (a.length == b.length && a.code < b.code)
}

/// The entry the canonical assignment creates for element `i` of the
/// bucket of code length `l`.
pub open spec fn entry_at(buckets: Seq<Seq<u8>>, l: int, i: int) -> CodeEntry {
    CodeEntry {
        length: l as u8,
        code: (first_code(buckets, l) + i) as u16,
        symbol: buckets[l - 1][i],
    }
}

/// Appending to a sequence keeps its elements and adds the new one.
proof fn lemma_push_contains<A>(s: Seq<A>, x: A)
    ensures
        forall|y: A| #[trigger] s.push(x).contains(y) <==> s.contains(y) || y == x,
{
    assert forall|y: A| #[trigger] s.push(x).contains(y) implies s.contains(y) || y == x by {
        let k = choose|k: int| 0 <= k < s.push(x).len() && s.push(x)[k] == y;
        if k < s.len() {
            assert(s[k] == y);
        }
    }
    assert forall|y: A| s.contains(y) || y == x implies #[trigger] s.push(x).contains(y) by {
        if s.contains(y) {
            let k = choose|k: int| 0 <= k < s.len() && s[k] == y;
            assert(s.push(x)[k] == y);
        } else {
            assert(s.push(x)[s.len() as int] == y);
        }
    }
}

impl HuffmanTable {
    /// The table's bucket counts are consistent with a canonical code.
    pub open spec fn wf(&self) -> bool {
        wf_buckets(self@.symbols)
    }

    /// Builds the canonical code map of the table: lengths in increasing
    /// order, bucket order within a length, a running value that steps by
    /// one per symbol and doubles between lengths.
    ///
    /// The result holds an entry for a (length, pattern, symbol) triple
    /// exactly when the canonical assignment maps that pattern to that
    /// symbol, in strict assignment order.
    pub fn make_translation_map(&self) -> (map: Vec<CodeEntry>)
        requires
            self.wf(),
        ensures
            forall|e: CodeEntry| #[trigger]
                map@.contains(e) <==> entry_matches(self@.symbols, e),
            forall|i: int, j: int| 0 <= i < j < map@.len() ==> entry_below(map@[i], map@[j]),
    {
        let ghost b = self@.symbols;
        let mut map: Vec<CodeEntry> = Vec::new();
        let mut current: u32 = 0;
        let mut l: usize = 1;
        while l <= 16
            invariant
                self.wf(),
                b == self@.symbols,
                1 <= l <= 17,
                self.symbols@.len() == 16,
                current == first_code(b, l as int),
                l <= 16 ==> current <= 0x1_0000,
                forall|k: int| 0 <= k < map@.len() ==> entry_matches(b, #[trigger] map@[k]),
                forall|i: int, j: int| 0 <= i < j < map@.len() ==> entry_below(map@[i], map@[j]),
                forall|k: int| 0 <= k < map@.len() ==> (#[trigger] map@[k]).length < l,
                forall|l2: int, i2: int|
                    1 <= l2 < l && 0 <= i2 < b[l2 - 1].len() ==> map@.contains(
                        entry_at(b, l2, i2)),
            decreases 17 - l,
        {
            let bucket_len = self.symbols[l - 1].len();
            proof {
                assert(b[l as int - 1] == self.symbols@[l - 1]@);
                lemma2_to64();
                if (l as int) < 16 {
                    lemma_pow2_strictly_increases(l as nat, 16);
                }
                assert(first_code(b, l as int) + b[l as int - 1].len() <= pow2(l as nat));
            }
            let mut i: usize = 0;
            while i < bucket_len
                invariant
                    self.wf(),
                    b == self@.symbols,
                    1 <= l <= 16,
                    self.symbols@.len() == 16,
                    bucket_len == b[l as int - 1].len(),
                    first_code(b, l as int) + bucket_len <= pow2(l as nat) <= 0x1_0000,
                    i <= bucket_len,
                    current == first_code(b, l as int) + i,
                    forall|k: int| 0 <= k < map@.len() ==> entry_matches(b, #[trigger] map@[k]),
                    forall|i2: int, j2: int|
                        0 <= i2 < j2 < map@.len() ==> entry_below(map@[i2], map@[j2]),
                    forall|k: int|
                        0 <= k < map@.len() ==> ((#[trigger] map@[k]).length < l || (
                        map@[k].length == l && map@[k].code < current)),
                    forall|l2: int, i2: int|
                        1 <= l2 < l && 0 <= i2 < b[l2 - 1].len() ==> map@.contains(
                            entry_at(b, l2, i2)),
                    forall|i2: int|
                        0 <= i2 < i ==> map@.contains(entry_at(b, l as int, i2)),
                decreases bucket_len - i,
            {
                let sym = self.symbols[l - 1][i];
                let e = CodeEntry { length: l as u8, code: current as u16, symbol: sym };
                proof {
                    assert(current < 0x1_0000);
                    assert(e.code == first_code(b, l as int) + i);
                    assert(e.symbol == b[l as int - 1][i as int]);
                    assert(entry_matches(b, e));
                    assert(e == entry_at(b, l as int, i as int));
                    lemma_push_contains(map@, e);
                }
                let ghost old_map = map@;
                map.push(e);
                proof {
                    assert(map@ == old_map.push(e));
                    assert(forall|i2: int|
                        0 <= i2 < i + 1 ==> map@.contains(entry_at(b, l as int, i2)));
                }
                current = current + 1;
                i = i + 1;
            }
            current = current * 2;
            proof {
                assert(current == first_code(b, l as int + 1));
                if l < 16 {
                    assert(first_code(b, l as int + 1) + b[l as int].len() <= pow2(
                        (l + 1) as nat));
                }
            }
            l = l + 1;
        }
        proof {
            assert forall|e: CodeEntry| #[trigger]
                map@.contains(e) <==> entry_matches(b, e) by {
                if map@.contains(e) {
                    let k = choose|k: int| 0 <= k < map@.len() && map@[k] == e;
                    assert(entry_matches(b, map@[k]));
                }
                if entry_matches(b, e) {
                    let l2 = e.length as int;
                    let i2 = e.code as int - first_code(b, l2);
                    assert(map@.contains(entry_at(b, l2, i2)));
                    assert(entry_at(b, l2, i2) == e);
                }
            }
        }
        map
    }

    /// Decodes a byte buffer, read as a bit sequence with the most
    /// significant bit of each byte first, against this table's canonical
    /// code map: at each position the shortest matching code word wins,
    /// its symbol is appended, and the cursor advances by its length.
    ///
    /// Returns the full decoded symbol sequence, or an error naming the
    /// bit position if some position matches no code word before the
    /// bits run out.
    pub fn huffman_decode(&self, code: &[u8]) -> (r: Result<Vec<u8>, ParserError>)
        requires
            self.wf(),
            code@.len() * 8 <= usize::MAX,
        ensures
            match r {
                Ok(v) => decode_from(self@.symbols, stream_bits(code@), 0) == Some(v@),
                Err(_) => decode_from(self@.symbols, stream_bits(code@), 0) is None,
            },
    {
        let ghost b = self@.symbols;
        let ghost bits = stream_bits(code@);
        let translation = self.make_translation_map();
        let mut result: Vec<u8> = Vec::new();
        let total_bits = code.len() * 8;
        let mut cursor: usize = 0;
        while cursor < total_bits
            invariant
                self.wf(),
                b == self@.symbols,
                bits == stream_bits(code@),
                total_bits == code@.len() * 8 <= usize::MAX,
                bits.len() == total_bits,
                cursor <= total_bits,
                forall|e: CodeEntry| #[trigger]
                    translation@.contains(e) <==> entry_matches(b, e),
                match decode_from(b, bits, cursor as int) {
                    Some(rest) => decode_from(b, bits, 0) == Some(result@ + rest),
                    None => decode_from(b, bits, 0) is None,
                },
            decreases total_bits - cursor,
        {
            let mut len: usize = 1;
            let mut found: Option<(u8, usize)> = None;
            while len <= 16 && found.is_none()
                invariant
                    self.wf(),
                    b == self@.symbols,
                    bits == stream_bits(code@),
                    total_bits == code@.len() * 8 <= usize::MAX,
                    bits.len() == total_bits,
                    cursor < total_bits,
                    1 <= len <= 17,
                    forall|e: CodeEntry| #[trigger]
                        translation@.contains(e) <==> entry_matches(b, e),
                    match found {
                        Some((sym, flen)) => flen == len - 1 && 1 <= flen <= 16 && cursor
                            + flen <= total_bits && match_length_from(b, bits, cursor as int, 1)
                            == Some(flen as int) && code_symbol(b, flen as int, window_value(
                            bits, cursor as int, flen as int)) == Some(sym),
                        None => match_length_from(b, bits, cursor as int, 1)
                            == match_length_from(b, bits, cursor as int, len as int),
                    },
                decreases 17 - len,
            {
                if len <= total_bits - cursor {
                    let w = read_window(code, cursor, len);
                    match map_lookup(&translation, len as u8, w) {
                        Some(sym) => {
                            proof {
                                assert(code_symbol(b, len as int, w as int) == Some(sym));
                            }
                            found = Some((sym, len));
                        },
                        None => {
                            proof {
                                match code_symbol(b, len as int, w as int) {
                                    Some(s0) => {
                                        let e0 = CodeEntry {
                                            length: len as u8,
                                            code: w,
                                            symbol: s0,
                                        };
                                        assert(entry_matches(b, e0));
                                        assert(translation@.contains(e0));
                                        assert(false);
                                    },
                                    None => {},
                                }
                            }
                        },
                    }
                }
                len = len + 1;
            }
            match found {
                Some((sym, flen)) => {
                    result.push(sym);
                    cursor = cursor + flen;
                    proof {
                        lemma_decode_step(b, bits, (cursor - flen) as int);
                        assert(match decode_from(b, bits, cursor as int) {
                            Some(rest) => decode_from(b, bits, 0) == Some(result@ + rest),
                            None => decode_from(b, bits, 0) is None,
                        }) by {
                            match decode_from(b, bits, cursor as int) {
                                Some(rest) => {
                                    assert(decode_from(b, bits, (cursor - flen) as int)
                                        == Some(seq![sym] + rest));
                                    assert(result@ + rest =~= result@.drop_last() + (seq![sym]
                                        + rest));
                                },
                                None => {},
                            }
                        }
                    }
                },
                None => {
                    proof {
                        assert(match_length_from(b, bits, cursor as int, 1) is None);
                        assert(decode_from(b, bits, cursor as int) is None);
                    }
                    return Err(ParserError { reason: no_code_message(cursor, total_bits - cursor) });
                },
            }
        }
        proof {
            assert(decode_from(b, bits, cursor as int) == Some(Seq::<u8>::empty()));
            assert(result@ + Seq::<u8>::empty() =~= result@);
        }
        Ok(result)
    }

    /// Decides whether the bucket counts admit a canonical assignment,
    /// walking the running code value exactly as the builder does.
    pub fn well_formed(&self) -> (r: bool)
        ensures
            r == self.wf(),
    {
        if self.symbols.len() != 16 {
            return false;
        }
        let mut current: u32 = 0;
        let mut l: usize = 1;
        while l <= 16
            invariant
                1 <= l <= 17,
                self.symbols@.len() == 16,
                current == first_code(self@.symbols, l as int),
                current <= 0x2_0000,
                forall|k: int|
                    1 <= k < l ==> first_code(self@.symbols, k) + self@.symbols[k - 1].len()
                        <= pow2(k as nat),
            decreases 17 - l,
        {
            let bucket_len = self.symbols[l - 1].len();
            proof {
                lemma2_to64();
                if (l as int) < 16 {
                    lemma_pow2_strictly_increases(l as nat, 16);
                }
                assert(self@.symbols[l - 1] == self.symbols@[l - 1]@);
            }
            if bucket_len > 0x1_0000 {
                return false;
            }
            let limit: u32 = pow2_u32(l);
            if current + (bucket_len as u32) > limit {
                return false;
            }
            current = (current + (bucket_len as u32)) * 2;
            l = l + 1;
        }
        true
    }
}

/// Bit `k` of a byte, most significant bit first.
pub open spec fn byte_bit(b: u8, k: int) -> bool {
    (b >> ((7 - k) as u8)) & 1 == 1
}

/// The bytes of a buffer read as one bit sequence, most significant bit
/// of each byte first.
pub open spec fn stream_bits(bytes: Seq<u8>) -> Seq<bool> {
    Seq::new(bytes.len() * 8, |i: int| byte_bit(bytes[i / 8], i % 8))
}

/// The numeric value of the `len`-bit window of `bits` that starts at
/// `start`, first bit most significant.
pub open spec fn window_value(bits: Seq<bool>, start: int, len: int) -> int
    decreases len,
{
    if len <= 0 {
        0
    } else {
        2 * window_value(bits, start, len - 1) + if bits[start + len - 1] {
            1int
        } else {
            0int
        }
    }
}

/// The smallest candidate code length in `from..=16` whose bit window at
/// `cursor` is a stored code word, lengths tried in increasing order.
pub open spec fn match_length_from(
    buckets: Seq<Seq<u8>>,
    bits: Seq<bool>,
    cursor: int,
    from: int,
) -> Option<int>
    decreases 17 - from,
{
    if from < 1 || from > 16 {
        None
    } else if cursor + from <= bits.len() && code_symbol(
        buckets,
        from,
        window_value(bits, cursor, from),
    ) is Some {
        Some(from)
    } else {
        match_length_from(buckets, bits, cursor, from + 1)
    }
}

/// The symbol sequence decoded from `bits` at `cursor` on: at each
/// position the shortest matching code word is taken and its symbol
/// appended; `None` where some position has no match.
pub open spec fn decode_from(buckets: Seq<Seq<u8>>, bits: Seq<bool>, cursor: int) -> Option<
    Seq<u8>,
>
    decreases bits.len() - cursor,
{
    if cursor == bits.len() {
        Some(Seq::<u8>::empty())
    } else if 0 <= cursor < bits.len() {
        match match_length_from(buckets, bits, cursor, 1) {
            Some(l) => if 1 <= l && cursor + l <= bits.len() {
                match code_symbol(buckets, l, window_value(bits, cursor, l)) {
                    Some(sym) => match decode_from(buckets, bits, cursor + l) {
                        Some(rest) => Some(seq![sym] + rest),
                        None => None,
                    },
                    None => None,
                }
            } else {
                None
            },
            None => None,
        }
    } else {
        None
    }
}

/// A found match length lies in `from..=16`, its window fits, and its
/// window value is a stored code word.
proof fn lemma_match_length_props(buckets: Seq<Seq<u8>>, bits: Seq<bool>, cursor: int, from: int)
    requires
        1 <= from,
    ensures
        match match_length_from(buckets, bits, cursor, from) {
            Some(l) => from <= l <= 16 && cursor + l <= bits.len() && code_symbol(
                buckets,
                l,
                window_value(bits, cursor, l),
            ) is Some,
            None => true,
        },
    decreases 17 - from,
{
    if from > 16 {
    } else if cursor + from <= bits.len() && code_symbol(
        buckets,
        from,
        window_value(bits, cursor, from),
    ) is Some {
    } else {
        lemma_match_length_props(buckets, bits, cursor, from + 1);
    }
}

/// Unfolds one decoding step at a position where a code word matches.
proof fn lemma_decode_step(buckets: Seq<Seq<u8>>, bits: Seq<bool>, cursor: int)
    requires
        0 <= cursor < bits.len(),
    ensures
        match match_length_from(buckets, bits, cursor, 1) {
            Some(l) => 1 <= l <= 16 && cursor + l <= bits.len() && (match code_symbol(
                buckets,
                l,
                window_value(bits, cursor, l),
            ) {
                Some(sym) => decode_from(buckets, bits, cursor) == (match decode_from(
                    buckets,
                    bits,
                    cursor + l,
                ) {
                    Some(rest) => Some(seq![sym] + rest),
                    None => None::<Seq<u8>>,
                }),
                None => false,
            }),
            None => decode_from(buckets, bits, cursor) is None,
        },
{
    lemma_match_length_props(buckets, bits, cursor, 1);
}

/// Reads bit `i` of the buffer, most significant bit of each byte first.
fn bit_at(bytes: &[u8], i: usize) -> (r: bool)
    requires
        i < bytes@.len() * 8,
    ensures
        r == stream_bits(bytes@)[i as int],
{
    proof {
        vstd::arithmetic::div_mod::lemma_multiply_divide_lt(i as int, bytes@.len() as int, 8);
    }
    let byte = bytes[i / 8];
    let k = i % 8;
    (byte >> ((7 - k) as u8)) & 1 == 1
}

/// Reads the `len`-bit window starting at bit `cursor` as a numeric
/// value, first bit most significant.
fn read_window(bytes: &[u8], cursor: usize, len: usize) -> (r: u16)
    requires
        1 <= len <= 16,
        cursor + len <= bytes@.len() * 8,
        bytes@.len() * 8 <= usize::MAX,
    ensures
        r == window_value(stream_bits(bytes@), cursor as int, len as int),
{
    proof {
        lemma2_to64();
    }
    let mut r: u16 = 0;
    let mut j: usize = 0;
    while j < len
        invariant
            j <= len <= 16,
            cursor + len <= bytes@.len() * 8 <= usize::MAX,
            r == window_value(stream_bits(bytes@), cursor as int, j as int),
            r < pow2(j as nat),
        decreases len - j,
    {
        proof {
            lemma2_to64();
            if (j as int) < 15 {
                lemma_pow2_strictly_increases(j as nat, 15);
            }
            vstd::arithmetic::power2::lemma_pow2_unfold((j + 1) as nat);
        }
        let b = bit_at(bytes, cursor + j);
        r = r * 2 + if b {
            1
        } else {
            0
        };
        j = j + 1;
    }
    r
}

/// Finds the symbol stored under a (length, pattern value) pair, by
/// linear search through the map entries.
pub fn map_lookup(map: &Vec<CodeEntry>, length: u8, code: u16) -> (r: Option<u8>)
    ensures
        match r {
            Some(sym) => map@.contains((CodeEntry { length, code, symbol: sym })),
            None => forall|sym: u8| !map@.contains((CodeEntry { length, code, symbol: sym })),
        },
{
    let mut k: usize = 0;
    while k < map.len()
        invariant
            k <= map@.len(),
            forall|j: int|
                0 <= j < k ==> !((#[trigger] map@[j]).length == length && map@[j].code == code),
        decreases map@.len() - k,
    {
        let e = map[k];
        if e.length == length && e.code == code {
            proof {
                assert(map@[k as int] == (CodeEntry { length, code, symbol: e.symbol }));
            }
            return Some(e.symbol);
        }
        k = k + 1;
    }
    proof {
        assert forall|sym: u8| !map@.contains((CodeEntry { length, code, symbol: sym })) by {
            if map@.contains((CodeEntry { length, code, symbol: sym })) {
                let j = choose|j: int|
                    0 <= j < map@.len() && map@[j] == (CodeEntry { length, code, symbol: sym });
                assert(map@[j].length == length && map@[j].code == code);
            }
        }
    }
    None
}

/// Relies on the format macro of std to render the failing bit position
/// and the count of remaining bits into the error text.
#[verifier::external_body]
fn no_code_message(cursor: usize, remaining: usize) -> (r: String) {
    format!("no matching code word at bit {} ({} bits remain)", cursor, remaining)
}

/// The first code of a longer length dominates the whole range of a
/// shorter length: the running value at least doubles per length step.
proof fn lemma_first_code_grows(buckets: Seq<Seq<u8>>, l1: int, l2: int)
    requires
        1 <= l1 < l2,
    ensures
        first_code(buckets, l2) >= (first_code(buckets, l1) + buckets[l1 - 1].len()) * pow2(
            (l2 - l1) as nat,
        ),
    decreases l2 - l1,
{
    let base = (first_code(buckets, l1) + buckets[l1 - 1].len()) as int;
    if l2 == l1 + 1 {
        assert(pow2(1) == 2) by {
            lemma2_to64();
        }
        assert(first_code(buckets, l2) == 2 * base);
        assert(2 * base == base * pow2(1));
    } else {
        lemma_first_code_grows(buckets, l1, l2 - 1);
        let p = pow2((l2 - 1 - l1) as nat) as int;
        let p2 = pow2((l2 - l1) as nat) as int;
        vstd::arithmetic::power2::lemma_pow2_unfold((l2 - l1) as nat);
        assert(p2 == 2 * p);
        assert(first_code(buckets, l2) == 2 * (first_code(buckets, l2 - 1) + buckets[l2
            - 2].len()));
        assert(first_code(buckets, l2 - 1) >= base * p);
        assert(first_code(buckets, l2) >= 2 * (base * p));
        assert(2 * (base * p) == base * p2) by (nonlinear_arith)
            requires
                p2 == 2 * p,
        ;
        assert(first_code(buckets, l2) >= base * p2);
    }
}

/// No stored code word is a proper prefix of another.
///
/// Read `c1` and `c2` as the numeric values of stored patterns of
/// lengths `l1 < l2`: truncating the longer pattern to the first `l1`
/// bits (dividing by two to the power of the extra length) never
/// reproduces the shorter pattern's value, so a shorter match can never
/// mask the start of a longer code word.
pub proof fn lemma_prefix_free(buckets: Seq<Seq<u8>>, l1: int, c1: int, l2: int, c2: int)
    requires
        wf_buckets(buckets),
        code_symbol(buckets, l1, c1) is Some,
        code_symbol(buckets, l2, c2) is Some,
        l1 < l2,
    ensures
        c2 / (pow2((l2 - l1) as nat) as int) != c1,
{
    let p = pow2((l2 - l1) as nat) as int;
    vstd::arithmetic::power2::lemma_pow2_pos((l2 - l1) as nat);
    lemma_first_code_grows(buckets, l1, l2);
    assert(c1 + 1 <= first_code(buckets, l1) + buckets[l1 - 1].len());
    vstd::arithmetic::mul::lemma_mul_inequality(
        c1 + 1,
        first_code(buckets, l1) + buckets[l1 - 1].len() as int,
        p,
    );
    assert((c1 + 1) * p <= c2);
    vstd::arithmetic::div_mod::lemma_div_is_ordered((c1 + 1) * p, c2, p);
    vstd::arithmetic::div_mod::lemma_div_by_multiple(c1 + 1, p);
    assert(c2 / p >= c1 + 1);
}

/// Extending a bit window multiplies its value by two to the power of
/// the added length, plus the value of the added bits.
proof fn lemma_window_bounds(bits: Seq<bool>, start: int, l1: int, l2: int)
    requires
        0 <= l1 <= l2,
    ensures
        window_value(bits, start, l1) * pow2((l2 - l1) as nat) <= window_value(bits, start, l2)
            < (window_value(bits, start, l1) + 1) * pow2((l2 - l1) as nat),
    decreases l2 - l1,
{
    let a = window_value(bits, start, l1);
    let p = pow2((l2 - l1) as nat) as int;
    if l1 == l2 {
        assert(pow2(0) == 1) by {
            lemma2_to64();
        }
    } else {
        lemma_window_bounds(bits, start, l1, l2 - 1);
        let q = pow2((l2 - 1 - l1) as nat) as int;
        vstd::arithmetic::power2::lemma_pow2_unfold((l2 - l1) as nat);
        assert(a * p == 2 * (a * q)) by (nonlinear_arith)
            requires
                p == 2 * q,
        ;
        assert((a + 1) * p == 2 * ((a + 1) * q)) by (nonlinear_arith)
            requires
                p == 2 * q,
        ;
    }
}

/// Truncating a bit window to a shorter length divides its value by two
/// to the power of the dropped length.
proof fn lemma_window_truncate(bits: Seq<bool>, start: int, l1: int, l2: int)
    requires
        0 <= l1 <= l2,
    ensures
        window_value(bits, start, l2) / (pow2((l2 - l1) as nat) as int) == window_value(
            bits,
            start,
            l1,
        ),
{
    let a = window_value(bits, start, l1);
    let x = window_value(bits, start, l2);
    let p = pow2((l2 - l1) as nat) as int;
    lemma_window_bounds(bits, start, l1, l2);
    vstd::arithmetic::power2::lemma_pow2_pos((l2 - l1) as nat);
    assert((a + 1) * p == a * p + p) by (nonlinear_arith);
    vstd::arithmetic::div_mod::lemma_fundamental_div_mod_converse_div(x, p, a, x - a * p);
}

/// At any position of any bit stream, at most one code length of a
/// well-formed table matches: a matching shorter window is never the
/// start of a longer code word, so taking the first match in increasing
/// length order is the only possible reading.
pub proof fn lemma_at_most_one_match(
    buckets: Seq<Seq<u8>>,
    bits: Seq<bool>,
    cursor: int,
    l1: int,
    l2: int,
)
    requires
        wf_buckets(buckets),
        l1 < l2,
        code_symbol(buckets, l1, window_value(bits, cursor, l1)) is Some,
    ensures
        code_symbol(buckets, l2, window_value(bits, cursor, l2)) is None,
{
    if code_symbol(buckets, l2, window_value(bits, cursor, l2)) is Some {
        lemma_window_truncate(bits, cursor, l1, l2);
        lemma_prefix_free(
            buckets,
            l1,
            window_value(bits, cursor, l1),
            l2,
            window_value(bits, cursor, l2),
        );
    }
}

/// Entropy decoding is a function of the table and the bytes alone: two
/// successful decodes of the same pair yield the same symbol sequence.
pub proof fn lemma_decode_deterministic(
    buckets: Seq<Seq<u8>>,
    bytes: Seq<u8>,
    r1: Seq<u8>,
    r2: Seq<u8>,
)
    requires
        decode_from(buckets, stream_bits(bytes), 0) == Some(r1),
        decode_from(buckets, stream_bits(bytes), 0) == Some(r2),
    ensures
        r1 == r2,
{
}

/// Computes `pow2(l)` for exponents small enough that the result fits.
fn pow2_u32(l: usize) -> (r: u32)
    requires
        l <= 16,
    ensures
        r == pow2(l as nat),
{
    proof {
        lemma2_to64();
    }
    let mut r: u32 = 1;
    let mut i: usize = 0;
    while i < l
        invariant
            i <= l <= 16,
            r == pow2(i as nat),
            r <= 0x1_0000,
        decreases l - i,
    {
        proof {
            lemma2_to64();
            vstd::arithmetic::power2::lemma_pow2_unfold((i + 1) as nat);
            if (i as int) + 1 < 16 {
                lemma_pow2_strictly_increases((i + 1) as nat, 16);
            }
        }
        r = r * 2;
        i = i + 1;
    }
    r
}

} // verus!
