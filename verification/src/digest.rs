//! The digest engine: streaming SHA-256 over a file's bytes, rendered as a
//! fixed-length lowercase hexadecimal string that serves as the content
//! address of the file.

use sha2::Digest;
use vstd::prelude::*;
use vstd::string::StringExecFns;

verus! {

/// Number of bytes in a raw SHA-256 digest.
pub const DIGEST_BYTES: usize = 32;

/// Number of characters in a rendered digest.
pub const DIGEST_HEX_LEN: usize = 64;

/// Longest message, in bytes, whose bit length still fits the 64-bit length
/// field that SHA-256 appends to the message.
pub const MAX_MESSAGE_BYTES: u64 = 0x1fff_ffff_ffff_ffff;

/// The SHA-256 digest of a message, as computed by the `sha2` crate.
pub uninterp spec fn sha256(message: Seq<u8>) -> Seq<u8>;

/// The bytes that a running hasher has been fed so far, in order.
pub uninterp spec fn absorbed(state: HashState) -> Seq<u8>;

/// A running `sha2::Sha256` hasher. Verus cannot take the hasher's type, an
/// alias of a generic type bounded by traits of the `digest` crate, so the
/// hasher is held here and reached only through the three functions below.
#[verifier::external_body]
pub struct HashState {
    inner: sha2::Sha256,
}

/// `sha2::Sha256::new`: a fresh hasher, which has been fed nothing.
#[verifier::external_body]
fn hash_state_new() -> (state: HashState)
    ensures
        absorbed(state) == Seq::<u8>::empty(),
{
    HashState { inner: sha2::Sha256::new() }
}

/// `sha2::Sha256::update`: the hasher takes in `chunk` after what it already
/// holds. The message must stay within the length SHA-256 is defined for; the
/// crate's block counter and bit-length arithmetic overflow beyond it. Within
/// it the call copies and compresses in place and has no failing path.
#[verifier::external_body]
fn hash_state_update(state: &mut HashState, chunk: &[u8])
    requires
        absorbed(*old(state)).len() + chunk@.len() <= MAX_MESSAGE_BYTES,
    ensures
        absorbed(*final(state)) == absorbed(*old(state)) + chunk@,
    no_unwind
{
    state.inner.update(chunk);
}

/// `sha2::Sha256::finalize`: the 32-byte SHA-256 digest of everything the
/// hasher was fed.
#[verifier::external_body]
fn hash_state_finalize(state: HashState) -> (out: Vec<u8>)
    requires
        absorbed(state).len() <= MAX_MESSAGE_BYTES,
    ensures
        out@ == sha256(absorbed(state)),
        out@.len() == DIGEST_BYTES,
{
    state.inner.finalize().to_vec()
}

/// The lowercase hexadecimal digit for a value below sixteen.
pub open spec fn hex_char(nibble: int) -> char {
    if nibble == 0 {
        '0'
    } else if nibble == 1 {
        '1'
    } else if nibble == 2 {
        '2'
    } else if nibble == 3 {
        '3'
    } else if nibble == 4 {
        '4'
    } else if nibble == 5 {
        '5'
    } else if nibble == 6 {
        '6'
    } else if nibble == 7 {
        '7'
    } else if nibble == 8 {
        '8'
    } else if nibble == 9 {
        '9'
    } else if nibble == 10 {
        'a'
    } else if nibble == 11 {
        'b'
    } else if nibble == 12 {
        'c'
    } else if nibble == 13 {
        'd'
    } else if nibble == 14 {
        'e'
    } else {
        'f'
    }
}

/// Whether `c` is one of the sixteen lowercase hexadecimal digits.
pub open spec fn is_lower_hex(c: char) -> bool {
    exists|n: int| 0 <= n < 16 && c == #[trigger] hex_char(n)
}

/// The nibble that position `i` of a hexadecimal rendering shows: the high
/// half of byte `i / 2` at even positions, the low half at odd ones.
pub open spec fn nibble_at(bytes: Seq<u8>, i: int) -> int {
    if i % 2 == 0 {
        bytes[i / 2] as int / 16
    } else {
        bytes[i / 2] as int % 16
    }
}

/// The lowercase hexadecimal rendering of a byte sequence: two digits per
/// byte, high nibble first.
pub open spec fn hex_of(bytes: Seq<u8>) -> Seq<char> {
    Seq::new(2 * bytes.len(), |i: int| hex_char(nibble_at(bytes, i)))
}

/// The content address of a file with the given content: its SHA-256 digest
/// in lowercase hexadecimal.
pub open spec fn digest_hex(content: Seq<u8>) -> Seq<char> {
    hex_of(sha256(content))
}

fn hex_digit(nibble: u8) -> (digit: &'static str)
    requires
        nibble < 16,
    ensures
        digit@ == seq![hex_char(nibble as int)],
{
    proof {
        reveal_strlit("0");
        reveal_strlit("1");
        reveal_strlit("2");
        reveal_strlit("3");
        reveal_strlit("4");
        reveal_strlit("5");
        reveal_strlit("6");
        reveal_strlit("7");
        reveal_strlit("8");
        reveal_strlit("9");
        reveal_strlit("a");
        reveal_strlit("b");
        reveal_strlit("c");
        reveal_strlit("d");
        reveal_strlit("e");
        reveal_strlit("f");
    }
    let digit = match nibble {
        0 => "0",
        1 => "1",
        2 => "2",
        3 => "3",
        4 => "4",
        5 => "5",
        6 => "6",
        7 => "7",
        8 => "8",
        9 => "9",
        10 => "a",
        11 => "b",
        12 => "c",
        13 => "d",
        14 => "e",
        _ => "f",
    };
    assert(digit@ =~= seq![hex_char(nibble as int)]);
    digit
}

/// Renders bytes as lowercase hexadecimal.
pub fn to_hex(bytes: &[u8]) -> (hex: String)
    ensures
        hex@ == hex_of(bytes@),
{
    let mut hex = String::new();
    let mut i: usize = 0;
    while i < bytes.len()
        invariant
            i <= bytes@.len(),
            hex@ == hex_of(bytes@.take(i as int)),
        decreases bytes@.len() - i,
    {
        let byte = bytes[i];
        let ghost before = hex@;
        hex.append(hex_digit(byte / 16));
        hex.append(hex_digit(byte % 16));
        proof {
            let shorter = bytes@.take(i as int);
            let longer = bytes@.take(i + 1);
            assert forall|k: int| 0 <= k < 2 * longer.len() implies hex@[k] == hex_of(longer)[k] by {
                if k < 2 * i {
                    assert(before[k] == hex_of(shorter)[k]);
                    assert(shorter[k / 2] == longer[k / 2]);
                }
            }
            assert(hex@ =~= hex_of(longer));
        }
        i += 1;
    }
    assert(bytes@.take(i as int) =~= bytes@);
    hex
}

/// Feeds `chunk` to the hasher and advances the byte count along with it.
fn feed(state: &mut HashState, fed: &mut u64, chunk: &[u8], size: u64)
    requires
        size == chunk@.len(),
        *old(fed) == absorbed(*old(state)).len(),
        *old(fed) + chunk@.len() <= MAX_MESSAGE_BYTES,
    ensures
        absorbed(*final(state)) == absorbed(*old(state)) + chunk@,
        *final(fed) == absorbed(*final(state)).len(),
    no_unwind
{
    hash_state_update(state, chunk);
    *fed = *fed + size;
}

/// A streaming SHA-256 hasher that accepts a file's content chunk by chunk,
/// so that a file of any size is hashed through a bounded buffer.
pub struct Digester {
    state: HashState,
    fed: u64,
}

impl View for Digester {
    type V = Seq<u8>;

    /// The content fed so far.
    closed spec fn view(&self) -> Seq<u8> {
        absorbed(self.state)
    }
}

impl Digester {
    #[verifier::type_invariant]
    spec fn counted(&self) -> bool {
        self.fed == absorbed(self.state).len() && self.fed <= MAX_MESSAGE_BYTES
    }

    /// A hasher that has been fed nothing.
    pub fn new() -> (digester: Digester)
        ensures
            digester@ == Seq::<u8>::empty(),
    {
        Digester { state: hash_state_new(), fed: 0 }
    }

    /// The number of bytes fed so far.
    pub fn len(&self) -> (n: u64)
        ensures
            n == self@.len(),
            n <= MAX_MESSAGE_BYTES,
    {
        proof {
            use_type_invariant(self);
        }
        self.fed
    }

    /// Feeds the next chunk of content. A chunk that would take the message
    /// past `MAX_MESSAGE_BYTES` is refused and leaves the hasher as it was.
    pub fn update(&mut self, chunk: &[u8]) -> (accepted: bool)
        ensures
            accepted == (old(self)@.len() + chunk@.len() <= MAX_MESSAGE_BYTES),
            accepted ==> final(self)@ == old(self)@ + chunk@,
            !accepted ==> final(self)@ == old(self)@,
    {
        proof {
            use_type_invariant(&*self);
        }
        let room: u64 = MAX_MESSAGE_BYTES - self.fed;
        let size: u64 = chunk.len() as u64;
        if size > room {
            return false;
        }
        feed(&mut self.state, &mut self.fed, chunk, size);
        true
    }

    /// Ends the stream and returns the content address of everything fed.
    pub fn finish(self) -> (hex: String)
        ensures
            hex@ == digest_hex(self@),
            hex@.len() == DIGEST_HEX_LEN,
    {
        proof {
            use_type_invariant(&self);
        }
        let raw = hash_state_finalize(self.state);
        to_hex(raw.as_slice())
    }
}

/// The content address of `content` held in memory as one piece; `None` when
/// the content is longer than SHA-256 is defined for.
pub fn digest_bytes(content: &[u8]) -> (hex: Option<String>)
    ensures
        content@.len() <= MAX_MESSAGE_BYTES ==> hex.is_some() && hex.unwrap()@ == digest_hex(
            content@,
        ),
        content@.len() > MAX_MESSAGE_BYTES ==> hex.is_none(),
{
    let mut digester = Digester::new();
    if digester.update(content) {
        assert(Seq::<u8>::empty() + content@ =~= content@);
        Some(digester.finish())
    } else {
        None
    }
}

/// A rendering has two characters for each byte.
pub proof fn lemma_hex_len(bytes: Seq<u8>)
    ensures
        hex_of(bytes).len() == 2 * bytes.len(),
{
}

/// A rendering holds lowercase hexadecimal digits only.
pub proof fn lemma_hex_is_lowercase(bytes: Seq<u8>, i: int)
    requires
        0 <= i < 2 * bytes.len(),
    ensures
        is_lower_hex(hex_of(bytes)[i]),
{
    let nibble = nibble_at(bytes, i);
    assert(0 <= nibble < 16);
    assert(hex_of(bytes)[i] == hex_char(nibble));
}

/// Distinct values below sixteen have distinct digits.
pub proof fn lemma_hex_char_is_injective(first: int, second: int)
    requires
        0 <= first < 16,
        0 <= second < 16,
        hex_char(first) == hex_char(second),
    ensures
        first == second,
{
}

/// Rendering loses nothing: byte sequences with the same rendering are the
/// same, so two digests differ as strings exactly when they differ as bytes.
pub proof fn lemma_hex_is_injective(first: Seq<u8>, second: Seq<u8>)
    requires
        hex_of(first) == hex_of(second),
    ensures
        first == second,
{
    assert(hex_of(first).len() == 2 * first.len());
    assert(hex_of(second).len() == 2 * second.len());
    assert(first.len() == second.len());
    assert forall|k: int| 0 <= k < first.len() implies first[k] == second[k] by {
        assert(hex_of(first)[2 * k] == hex_char(nibble_at(first, 2 * k)));
        assert(hex_of(second)[2 * k] == hex_char(nibble_at(second, 2 * k)));
        assert(hex_of(first)[2 * k + 1] == hex_char(nibble_at(first, 2 * k + 1)));
        assert(hex_of(second)[2 * k + 1] == hex_char(nibble_at(second, 2 * k + 1)));
        assert(nibble_at(first, 2 * k) == first[k] as int / 16);
        assert(nibble_at(second, 2 * k) == second[k] as int / 16);
        assert(nibble_at(first, 2 * k + 1) == first[k] as int % 16);
        assert(nibble_at(second, 2 * k + 1) == second[k] as int % 16);
        lemma_hex_char_is_injective(first[k] as int / 16, second[k] as int / 16);
        lemma_hex_char_is_injective(first[k] as int % 16, second[k] as int % 16);
    }
    assert(first =~= second);
}

/// The content address is a function of the content alone: files with the
/// same bytes have the same address, and two addresses are equal exactly when
/// the SHA-256 digests behind them are.
pub proof fn lemma_digest_is_content_address(first: Seq<u8>, second: Seq<u8>)
    ensures
        first == second ==> digest_hex(first) == digest_hex(second),
        digest_hex(first) == digest_hex(second) <==> sha256(first) == sha256(second),
{
    if digest_hex(first) == digest_hex(second) {
        lemma_hex_is_injective(sha256(first), sha256(second));
    }
}

} // verus!
