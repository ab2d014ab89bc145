//! The websocket transport's logic, server side: the handshake answer —
//! SHA-1 of the client's key and the protocol's GUID, in base64 — the
//! frame header's reading, the payload's unmasking, the assembly of frames
//! into messages, and the frame written back. Text frames carry the JSON
//! protocol; ping, pong and close are the only other frames a peer may
//! send, anything else ends the connection.

use vstd::prelude::*;
use vstd::string::StringSliceAdditionalSpecFns;

verus! {

/// The magic GUID the handshake answer hashes the client key with.
pub const HANDSHAKE_GUID: &'static str = "258EAFA5-E914-47DA-95CA-C5AB0DC85B11";

/// The GUID's bytes, as the handshake hashes them.
pub open spec fn guid_bytes() -> Seq<u8> {
    seq![50u8, 53u8, 56u8, 69u8, 65u8, 70u8, 65u8, 53u8, 45u8, 69u8, 57u8, 49u8, 52u8, 45u8, 52u8, 55u8, 68u8, 65u8, 45u8, 57u8, 53u8, 67u8, 65u8, 45u8, 67u8, 53u8, 65u8, 66u8, 48u8, 68u8, 67u8, 56u8, 53u8, 66u8, 49u8, 49u8]
}

fn handshake_guid() -> (bytes: Vec<u8>)
    ensures
        bytes@ == guid_bytes(),
{
    vec![50u8, 53u8, 56u8, 69u8, 65u8, 70u8, 65u8, 53u8, 45u8, 69u8, 57u8, 49u8, 52u8, 45u8, 52u8, 55u8, 68u8, 65u8, 45u8, 57u8, 53u8, 67u8, 65u8, 45u8, 67u8, 53u8, 65u8, 66u8, 48u8, 68u8, 67u8, 56u8, 53u8, 66u8, 49u8, 49u8]
}

/// The largest message the server reads.
pub const MAX_MESSAGE: usize = 1048576;

// ---------------------------------------------------------------------
// SHA-1, as FIPS 180-4 defines it.

/// A 32-bit word rotated left by `n` bits.
pub open spec fn rotl(x: u32, n: u32) -> u32 {
    (x << n) | (x >> ((32 - n) as u32))
}

/// The big-endian word four bytes make, starting at `at`.
pub open spec fn be_word(bytes: Seq<u8>, at: int) -> u32 {
    ((bytes[at] as u32) << 24u32) | ((bytes[at + 1] as u32) << 16u32) | ((bytes[at + 2] as u32) << 8u32) | (bytes[at + 3] as u32)
}

/// The big-endian bytes of a word.
pub open spec fn word_bytes(w: u32) -> Seq<u8> {
    seq![(w >> 24u32) as u8, (w >> 16u32) as u8, (w >> 8u32) as u8, w as u8]
}

/// The big-endian bytes of a 64-bit length.
pub open spec fn length_bytes(n: u64) -> Seq<u8> {
    seq![
        (n >> 56u64) as u8, (n >> 48u64) as u8, (n >> 40u64) as u8, (n >> 32u64) as u8,
        (n >> 24u64) as u8, (n >> 16u64) as u8, (n >> 8u64) as u8, n as u8,
    ]
}

/// How many zero bytes follow the marker byte, so the padded length is 56
/// modulo 64.
pub open spec fn zero_count(len: nat) -> nat {
    ((119 - (len % 64) as int) % 64) as nat
}

/// The message padded: the marker byte, the zeros, and the length in bits.
pub open spec fn padded(data: Seq<u8>) -> Seq<u8> {
    data + seq![0x80u8] + Seq::new(zero_count(data.len()), |i: int| 0u8) + length_bytes((data.len() * 8) as u64)
}

/// The `i`th word of a block's message schedule.
pub open spec fn schedule(block: Seq<u8>, i: nat) -> u32
    decreases i,
{
    if i < 16 {
        be_word(block, 4 * (i as int))
    } else {
        rotl(schedule(block, (i - 3) as nat) ^ schedule(block, (i - 8) as nat) ^ schedule(block, (i - 14) as nat)
            ^ schedule(block, (i - 16) as nat), 1)
    }
}

/// The round function and constant of round `i`.
pub open spec fn round_mix(i: nat, b: u32, c: u32, d: u32) -> (u32, u32) {
    if i < 20 {
        ((b & c) | (!b & d), 0x5A82_7999u32)
    } else if i < 40 {
        (b ^ c ^ d, 0x6ED9_EBA1u32)
    } else if i < 60 {
        ((b & c) | (b & d) | (c & d), 0x8F1B_BCDCu32)
    } else {
        (b ^ c ^ d, 0xCA62_C1D6u32)
    }
}

/// The working state after the first `i` rounds over a block.
pub open spec fn rounds(start: (u32, u32, u32, u32, u32), block: Seq<u8>, i: nat) -> (u32, u32, u32, u32, u32)
    decreases i,
{
    if i == 0 {
        start
    } else {
        let (a, b, c, d, e) = rounds(start, block, (i - 1) as nat);
        let (f, k) = round_mix((i - 1) as nat, b, c, d);
        let step = rotl(a, 5).wrapping_add(f).wrapping_add(e).wrapping_add(k).wrapping_add(schedule(block, (i - 1) as nat));
        (step, a, rotl(b, 30), c, d)
    }
}

/// The hash state after one block.
pub open spec fn compress(h: (u32, u32, u32, u32, u32), block: Seq<u8>) -> (u32, u32, u32, u32, u32) {
    let (a, b, c, d, e) = rounds(h, block, 80);
    (h.0.wrapping_add(a), h.1.wrapping_add(b), h.2.wrapping_add(c), h.3.wrapping_add(d), h.4.wrapping_add(e))
}

/// The hash state after the first `n` blocks of a padded message.
pub open spec fn hash_state(message: Seq<u8>, n: nat) -> (u32, u32, u32, u32, u32)
    decreases n,
{
    if n == 0 {
        (0x6745_2301u32, 0xEFCD_AB89u32, 0x98BA_DCFEu32, 0x1032_5476u32, 0xC3D2_E1F0u32)
    } else {
        compress(hash_state(message, (n - 1) as nat), message.subrange(64 * (n - 1), 64 * (n as int)))
    }
}

/// The SHA-1 digest of `data`.
pub open spec fn sha1_digest(data: Seq<u8>) -> Seq<u8> {
    let message = padded(data);
    let (a, b, c, d, e) = hash_state(message, message.len() / 64);
    word_bytes(a) + word_bytes(b) + word_bytes(c) + word_bytes(d) + word_bytes(e)
}

fn rotate(x: u32, n: u32) -> (r: u32)
    requires
        0 < n < 32,
    ensures
        r == rotl(x, n),
{
    (x << n) | (x >> (32 - n))
}

fn push_word(bytes: &mut Vec<u8>, w: u32)
    ensures
        final(bytes)@ == old(bytes)@ + word_bytes(w),
{
    bytes.push((w >> 24u32) as u8);
    bytes.push((w >> 16u32) as u8);
    bytes.push((w >> 8u32) as u8);
    bytes.push(w as u8);
    assert(final(bytes)@ =~= old(bytes)@ + word_bytes(w));
}

/// The message padded as SHA-1 pads it.
fn pad(data: &[u8]) -> (message: Vec<u8>)
    requires
        data@.len() * 8 <= u64::MAX,
    ensures
        message@ == padded(data@),
{
    let mut message: Vec<u8> = Vec::new();
    let mut i: usize = 0;
    while i < data.len()
        invariant
            i <= data@.len(),
            message@ == data@.subrange(0, i as int),
        decreases data@.len() - i,
    {
        message.push(data[i]);
        assert(message@ =~= data@.subrange(0, i + 1));
        i = i + 1;
    }
    assert(data@.subrange(0, data@.len() as int) =~= data@);
    message.push(0x80);
    let zeros: usize = (119 - data.len() % 64) % 64;
    let mut z: usize = 0;
    while z < zeros
        invariant
            z <= zeros,
            zeros == zero_count(data@.len()),
            message@ == data@ + seq![0x80u8] + Seq::new(z as nat, |i: int| 0u8),
        decreases zeros - z,
    {
        message.push(0);
        assert(message@ =~= data@ + seq![0x80u8] + Seq::new((z + 1) as nat, |i: int| 0u8));
        z = z + 1;
    }
    let bits: u64 = (data.len() as u64) * 8;
    message.push((bits >> 56u64) as u8);
    message.push((bits >> 48u64) as u8);
    message.push((bits >> 40u64) as u8);
    message.push((bits >> 32u64) as u8);
    message.push((bits >> 24u64) as u8);
    message.push((bits >> 16u64) as u8);
    message.push((bits >> 8u64) as u8);
    message.push(bits as u8);
    assert(message@ =~= padded(data@));
    message
}

/// The hash state after one block, computed round by round.
fn compress_block(h: (u32, u32, u32, u32, u32), message: &Vec<u8>, start: usize) -> (next: (u32, u32, u32, u32, u32))
    requires
        start + 64 <= message@.len(),
    ensures
        next == compress(h, message@.subrange(start as int, start + 64)),
{
    let ghost block = message@.subrange(start as int, start + 64);
    let length = message.len();
    let mut words: Vec<u32> = Vec::new();
    let mut i: usize = 0;
    while i < 80
        invariant
            i <= 80,
            length == message@.len(),
            start + 64 <= message@.len(),
            block == message@.subrange(start as int, start + 64),
            words@.len() == i,
            forall|j: int| 0 <= j < i ==> #[trigger] words@[j] == schedule(block, j as nat),
        decreases 80 - i,
    {
        let w = if i < 16 {
            let at = start + 4 * i;
            assert(block[4 * i] == message@[at as int]);
            assert(block[4 * i + 1] == message@[at + 1]);
            assert(block[4 * i + 2] == message@[at + 2]);
            assert(block[4 * i + 3] == message@[at + 3]);
            ((message[at] as u32) << 24u32) | ((message[at + 1] as u32) << 16u32) | ((message[at + 2] as u32) << 8u32)
                | (message[at + 3] as u32)
        } else {
            rotate(words[i - 3] ^ words[i - 8] ^ words[i - 14] ^ words[i - 16], 1)
        };
        words.push(w);
        i = i + 1;
    }
    let (mut a, mut b, mut c, mut d, mut e) = h;
    let mut i: usize = 0;
    while i < 80
        invariant
            i <= 80,
            words@.len() == 80,
            forall|j: int| 0 <= j < 80 ==> #[trigger] words@[j] == schedule(block, j as nat),
            (a, b, c, d, e) == rounds(h, block, i as nat),
        decreases 80 - i,
    {
        let (f, k) = if i < 20 {
            ((b & c) | (!b & d), 0x5A82_7999u32)
        } else if i < 40 {
            (b ^ c ^ d, 0x6ED9_EBA1u32)
        } else if i < 60 {
            ((b & c) | (b & d) | (c & d), 0x8F1B_BCDCu32)
        } else {
            (b ^ c ^ d, 0xCA62_C1D6u32)
        };
        let step = rotate(a, 5).wrapping_add(f).wrapping_add(e).wrapping_add(k).wrapping_add(words[i]);
        e = d;
        d = c;
        c = rotate(b, 30);
        b = a;
        a = step;
        i = i + 1;
    }
    (h.0.wrapping_add(a), h.1.wrapping_add(b), h.2.wrapping_add(c), h.3.wrapping_add(d), h.4.wrapping_add(e))
}

/// The SHA-1 digest of `data`.
pub fn sha1(data: &[u8]) -> (digest: Vec<u8>)
    requires
        data@.len() * 8 <= u64::MAX,
    ensures
        digest@ == sha1_digest(data@),
{
    let message = pad(data);
    proof {
        assert(message@.len() % 64 == 0) by {
            let n = data@.len();
            assert((n + 1 + zero_count(n) + 8) % 64 == 0) by (nonlinear_arith)
                requires zero_count(n) == ((119 - (n % 64) as int) % 64) as nat;
        }
    }
    let length = message.len();
    let blocks = length / 64;
    let mut h: (u32, u32, u32, u32, u32) = (0x6745_2301u32, 0xEFCD_AB89u32, 0x98BA_DCFEu32, 0x1032_5476u32, 0xC3D2_E1F0u32);
    let mut n: usize = 0;
    while n < blocks
        invariant
            n <= blocks,
            length == message@.len(),
            blocks == message@.len() / 64,
            message@.len() % 64 == 0,
            h == hash_state(message@, n as nat),
        decreases blocks - n,
    {
        proof {
            assert(64 * n + 64 <= message@.len()) by (nonlinear_arith)
                requires n < blocks, blocks == message@.len() / 64, message@.len() % 64 == 0;
        }
        h = compress_block(h, &message, 64 * n);
        assert(64 * (n + 1) == 64 * n + 64);
        n = n + 1;
    }
    let mut digest: Vec<u8> = Vec::new();
    push_word(&mut digest, h.0);
    push_word(&mut digest, h.1);
    push_word(&mut digest, h.2);
    push_word(&mut digest, h.3);
    push_word(&mut digest, h.4);
    assert(digest@ =~= sha1_digest(data@));
    digest
}

// ---------------------------------------------------------------------
// Base64, standard alphabet, with padding.

/// The character a sextet encodes as.
pub open spec fn sextet_char(v: u32) -> char {
    if v < 26 {
        (65 + v) as char
    } else if v < 52 {
        (97 + (v - 26)) as char
    } else if v < 62 {
        (48 + (v - 52)) as char
    } else if v == 62 {
        '+'
    } else {
        '/'
    }
}

/// The four characters one chunk of one to three bytes encodes as, `=`
/// filling for the bytes the chunk lacks.
pub open spec fn encode_chunk(chunk: Seq<u8>) -> Seq<char> {
    let b0 = chunk[0] as u32;
    let b1 = if chunk.len() > 1 { chunk[1] as u32 } else { 0u32 };
    let b2 = if chunk.len() > 2 { chunk[2] as u32 } else { 0u32 };
    let word = (b0 << 16u32) | (b1 << 8u32) | b2;
    seq![
        sextet_char((word >> 18u32) & 0x3Fu32),
        sextet_char((word >> 12u32) & 0x3Fu32),
        if chunk.len() >= 2 { sextet_char((word >> 6u32) & 0x3Fu32) } else { '=' },
        if chunk.len() >= 3 { sextet_char(word & 0x3Fu32) } else { '=' },
    ]
}

/// The base64 text of `data`, three bytes to four characters.
pub open spec fn base64_text(data: Seq<u8>) -> Seq<char>
    decreases data.len(),
{
    if data.len() == 0 {
        Seq::empty()
    } else if data.len() <= 3 {
        encode_chunk(data)
    } else {
        encode_chunk(data.take(3)) + base64_text(data.skip(3))
    }
}

fn sextet(v: u32) -> (c: char)
    requires
        v < 64,
    ensures
        c == sextet_char(v),
{
    if v < 26 {
        ((65 + v) as u8) as char
    } else if v < 52 {
        ((97 + (v - 26)) as u8) as char
    } else if v < 62 {
        ((48 + (v - 52)) as u8) as char
    } else if v == 62 {
        '+'
    } else {
        '/'
    }
}

proof fn lemma_base64_split(data: Seq<u8>, i: int)
    requires
        0 <= i <= data.len(),
        i % 3 == 0,
    ensures
        base64_text(data) == base64_text(data.take(i)) + base64_text(data.skip(i)),
    decreases i,
{
    if i > 0 {
        lemma_base64_split(data, i - 3);
        let head = data.take(i);
        assert(head.len() == i);
        assert(head.take(i - 3) =~= data.take(i - 3));
        assert(head.skip(i - 3) =~= data.skip(i - 3).take(3));
        assert(data.skip(i - 3).skip(3) =~= data.skip(i));
        lemma_base64_split(head, i - 3);
        if data.skip(i - 3).len() > 3 {
            assert(base64_text(data.skip(i - 3)) == encode_chunk(data.skip(i - 3).take(3)) + base64_text(data.skip(i)));
        } else {
            assert(data.skip(i - 3).take(3) =~= data.skip(i - 3));
            assert(data.skip(i).len() == 0);
        }
        assert(base64_text(head.skip(i - 3)) == encode_chunk(data.skip(i - 3).take(3)));
    } else {
        assert(data.skip(0) =~= data);
    }
}

/// The base64 text of `data`.
pub fn base64(data: &[u8]) -> (encoded: String)
    ensures
        encoded@ == base64_text(data@),
{
    let mut encoded = String::new();
    let mut i: usize = 0;
    while i < data.len()
        invariant
            i <= data@.len(),
            i % 3 == 0 || i == data@.len(),
            encoded@ == base64_text(data@.take(i as int)),
        decreases data@.len() - i,
    {
        let rest = data.len() - i;
        let b0 = data[i] as u32;
        let b1 = if rest > 1 { data[i + 1] as u32 } else { 0u32 };
        let b2 = if rest > 2 { data[i + 2] as u32 } else { 0u32 };
        let word = (b0 << 16u32) | (b1 << 8u32) | b2;
        let ghost chunk = data@.skip(i as int).take(if rest >= 3 { 3 } else { rest as int });
        assert(((word >> 18u32) & 0x3Fu32) < 64 && ((word >> 12u32) & 0x3Fu32) < 64
            && ((word >> 6u32) & 0x3Fu32) < 64 && (word & 0x3Fu32) < 64) by (bit_vector);
        let ghost before = encoded@;
        encoded.push(sextet((word >> 18u32) & 0x3F));
        encoded.push(sextet((word >> 12u32) & 0x3F));
        if rest >= 2 {
            encoded.push(sextet((word >> 6u32) & 0x3F));
        } else {
            encoded.push('=');
        }
        if rest >= 3 {
            encoded.push(sextet(word & 0x3F));
        } else {
            encoded.push('=');
        }
        proof {
            assert(encoded@ =~= before + encode_chunk(chunk));
            let next = if rest >= 3 { i + 3 } else { data@.len() as int };
            lemma_base64_split(data@.take(next), i as int);
            assert(data@.take(next).take(i as int) =~= data@.take(i as int));
            assert(data@.take(next).skip(i as int) =~= chunk);
        }
        i = if rest >= 3 { i + 3 } else { data.len() };
    }
    assert(data@.take(data@.len() as int) =~= data@);
    encoded
}

/// The `Sec-WebSocket-Accept` answer for a client's handshake key: the
/// base64 of the SHA-1 of the key followed by the protocol's GUID.
pub fn accept_key(client_key: &str) -> (answer: String)
    requires
        client_key.spec_bytes().len() < 0x1000_0000_0000_0000,
    ensures
        answer@ == base64_text(sha1_digest(client_key.spec_bytes() + guid_bytes())),
{
    let key = client_key.as_bytes();
    let guid = handshake_guid();
    let mut joined: Vec<u8> = Vec::new();
    let mut i: usize = 0;
    while i < key.len()
        invariant
            i <= key@.len(),
            joined@ == key@.subrange(0, i as int),
        decreases key@.len() - i,
    {
        joined.push(key[i]);
        assert(joined@ =~= key@.subrange(0, i + 1));
        i = i + 1;
    }
    assert(key@.subrange(0, key@.len() as int) =~= key@);
    let mut j: usize = 0;
    while j < guid.len()
        invariant
            j <= guid@.len(),
            key@.subrange(0, key@.len() as int) == key@,
            guid@ == guid_bytes(),
            joined@ == key@ + guid@.subrange(0, j as int),
        decreases guid@.len() - j,
    {
        joined.push(guid[j]);
        assert(joined@ =~= key@ + guid@.subrange(0, j + 1));
        j = j + 1;
    }
    assert(key@.subrange(0, key@.len() as int) =~= key@);
    assert(guid@.subrange(0, guid@.len() as int) =~= guid@);
    let digest = sha1(joined.as_slice());
    base64(digest.as_slice())
}


// ---------------------------------------------------------------------
// Frames and messages.

/// A message read off the wire.
#[derive(PartialEq, Debug)]
pub enum Message {
    Text(String),
    Ping(Vec<u8>),
    Pong(Vec<u8>),
}

/// The text UTF-8 bytes decode to, where they are valid UTF-8.
pub uninterp spec fn utf8_text(bytes: Seq<u8>) -> Option<Seq<char>>;

/// `String::from_utf8`: the text the bytes encode, when they are valid
/// UTF-8.
#[verifier::external_body]
fn utf8(payload: Vec<u8>) -> (text: Option<String>)
    ensures
        match text {
            Some(t) => utf8_text(payload@) == Some(t@),
            None => utf8_text(payload@) is None,
        },
{
    String::from_utf8(payload).ok()
}

/// A frame's first two bytes, read: the final-fragment flag, the opcode,
/// and the seven-bit length code.
pub struct FrameHeader {
    pub fin: bool,
    pub opcode: u8,
    pub length_code: u8,
}

/// Read a frame's first two bytes: a reserved bit set, or an unmasked
/// frame, ends the connection.
pub fn frame_header(header: u16) -> (read: Result<FrameHeader, &'static str>)
    ensures
        match read {
            Ok(h) => header & 0x7000u16 == 0 && header & 0x0080u16 != 0 && h.fin == (header & 0x8000u16 != 0)
                && h.opcode == ((header >> 8u16) as u8) & 0x0Fu8 && h.length_code == (header & 0x007Fu16) as u8,
            Err(message) => if header & 0x7000u16 != 0 {
                message@ == "reserved frame bits set"@
            } else {
                header & 0x0080u16 == 0 && message@ == "client frames must be masked"@
            },
        },
{
    let fin = header & 0x8000 != 0;
    if header & 0x7000 != 0 {
        return Err("reserved frame bits set");
    }
    let opcode = ((header >> 8u16) as u8) & 0x0F;
    if header & 0x0080 == 0 {
        return Err("client frames must be masked");
    }
    Ok(FrameHeader { fin, opcode, length_code: (header & 0x007F) as u8 })
}

/// The payload length a frame declares: the length code itself below 126,
/// else the extended length read after the header. Beyond the message cap
/// it ends the connection.
pub fn payload_length(length_code: u8, extended: u64) -> (length: Result<usize, &'static str>)
    requires
        length_code < 128,
    ensures
        match length {
            Ok(n) => n <= MAX_MESSAGE && n == if length_code < 126 { length_code as u64 } else { extended },
            Err(message) => (if length_code < 126 { length_code as u64 } else { extended }) > MAX_MESSAGE
                && message@ == "message too large"@,
        },
{
    let declared: u64 = if length_code < 126 { length_code as u64 } else { extended };
    if declared > MAX_MESSAGE as u64 {
        return Err("message too large");
    }
    Ok(declared as usize)
}

/// The payload unmasked: each byte XORed with the mask byte its position
/// names, cycling through the four.
pub fn unmask(payload: &mut Vec<u8>, mask: [u8; 4])
    ensures
        final(payload)@.len() == old(payload)@.len(),
        forall|i: int| 0 <= i < old(payload)@.len() ==> #[trigger] final(payload)@[i] == old(payload)@[i] ^ mask@[i % 4],
{
    let mut i: usize = 0;
    while i < payload.len()
        invariant
            i <= payload@.len(),
            payload@.len() == old(payload)@.len(),
            forall|j: int| 0 <= j < i ==> #[trigger] payload@[j] == old(payload)@[j] ^ mask@[j % 4],
            forall|j: int| i <= j < payload@.len() ==> #[trigger] payload@[j] == old(payload)@[j],
        decreases payload@.len() - i,
    {
        let byte = payload[i] ^ mask[i % 4];
        payload.set(i, byte);
        i = i + 1;
    }
}

/// What one frame made of the message in flight.
pub enum Received {
    /// A whole message.
    Message(Message),
    /// The peer closed the connection.
    Closed,
    /// A fragment of a message still in flight.
    Pending,
}

/// The assembly of frames into messages: the fragments of a text message
/// in flight.
pub struct Assembly {
    pub fragment: Option<Vec<u8>>,
}

impl Assembly {
    pub fn new() -> (assembly: Assembly)
        ensures
            assembly.fragment is None,
    {
        Assembly { fragment: None }
    }

    /// Take one frame in. A final text frame is a message; a first text
    /// fragment opens one, continuations grow it up to the message cap, and
    /// the final continuation completes it. Close, ping and pong are whole
    /// frames. Anything else — a binary frame, a fragmented control frame,
    /// a continuation with nothing open, a second message opened while one
    /// is in flight, text that is not UTF-8 — ends the connection.
    pub fn frame(&mut self, fin: bool, opcode: u8, payload: Vec<u8>) -> (received: Result<Received, &'static str>)
        ensures
            opcode == 0x1 && fin ==> match received {
                Ok(Received::Message(Message::Text(t))) => utf8_text(payload@) == Some(t@),
                Err(message) => utf8_text(payload@) is None && message@ == "a text frame must carry utf-8"@,
                _ => false,
            },
            opcode == 0x1 && !fin ==> match old(self).fragment {
                None => received matches Ok(Received::Pending) && final(self).fragment == Some(payload),
                Some(_) => received matches Err(message) && message@ == "a new message opened while one is in flight"@,
            },
            opcode == 0x0 ==> match old(self).fragment {
                None => received matches Err(message) && message@ == "a continuation frame with no message open"@,
                Some(open) => {
                    let grown = open@ + payload@;
                    if grown.len() > MAX_MESSAGE {
                        received matches Err(message) && message@ == "message too large"@
                    } else if fin {
                        final(self).fragment is None && match received {
                            Ok(Received::Message(Message::Text(t))) => utf8_text(grown) == Some(t@),
                            Err(message) => utf8_text(grown) is None && message@ == "a text frame must carry utf-8"@,
                            _ => false,
                        }
                    } else {
                        received matches Ok(Received::Pending) && final(self).fragment matches Some(f) && f@ == grown
                    }
                },
            },
            opcode == 0x8 && fin ==> received matches Ok(Received::Closed),
            opcode == 0x9 && fin ==> (received matches Ok(Received::Message(Message::Ping(p))) && p@ == payload@),
            opcode == 0xA && fin ==> (received matches Ok(Received::Message(Message::Pong(p))) && p@ == payload@),
            opcode == 0x2 ==> (received matches Err(message) && message@ == "binary frames carry no part of the protocol"@),
            !(opcode == 0x0 || opcode == 0x1 || opcode == 0x2 || (fin && (opcode == 0x8 || opcode == 0x9 || opcode == 0xA)))
                ==> (received matches Err(message) && message@ == "an unexpected frame opcode"@),
    {
        if opcode == 0x1 && fin {
            return match utf8(payload) {
                Some(text) => Ok(Received::Message(Message::Text(text))),
                None => Err("a text frame must carry utf-8"),
            };
        }
        if opcode == 0x1 {
            if self.fragment.is_none() {
                self.fragment = Some(payload);
                return Ok(Received::Pending);
            }
            return Err("a new message opened while one is in flight");
        }
        if opcode == 0x0 {
            let mut open = match self.fragment.take() {
                Some(open) => open,
                None => {
                    return Err("a continuation frame with no message open");
                },
            };
            let ghost start = open@;
            let mut i: usize = 0;
            while i < payload.len()
                invariant
                    i <= payload@.len(),
                    open@ == start + payload@.subrange(0, i as int),
                decreases payload@.len() - i,
            {
                open.push(payload[i]);
                assert(open@ =~= start + payload@.subrange(0, i + 1));
                i = i + 1;
            }
            assert(payload@.subrange(0, payload@.len() as int) =~= payload@);
            if open.len() > MAX_MESSAGE {
                return Err("message too large");
            }
            if fin {
                return match utf8(open) {
                    Some(text) => Ok(Received::Message(Message::Text(text))),
                    None => Err("a text frame must carry utf-8"),
                };
            }
            self.fragment = Some(open);
            return Ok(Received::Pending);
        }
        if opcode == 0x8 && fin {
            return Ok(Received::Closed);
        }
        if opcode == 0x9 && fin {
            return Ok(Received::Message(Message::Ping(payload)));
        }
        if opcode == 0xA && fin {
            return Ok(Received::Message(Message::Pong(payload)));
        }
        if opcode == 0x2 {
            Err("binary frames carry no part of the protocol")
        } else {
            Err("an unexpected frame opcode")
        }
    }
}

/// The bytes of one frame the server writes: final, unmasked, the opcode,
/// the length in the shortest form that holds it, then the payload.
pub open spec fn frame_of(opcode: u8, payload: Seq<u8>) -> Seq<u8> {
    let n = payload.len();
    seq![0x80u8 | opcode] + if n <= 125 {
        seq![n as u8]
    } else if n <= 65535 {
        seq![126u8, (n / 256) as u8, (n % 256) as u8]
    } else {
        seq![127u8] + length_bytes(n as u64)
    } + payload
}

/// The number big-endian bytes spell, most significant first.
pub open spec fn big_endian(bytes: Seq<u8>) -> int
    decreases bytes.len(),
{
    if bytes.len() == 0 {
        0
    } else {
        big_endian(bytes.drop_last()) * 256 + bytes.last()
    }
}

/// A frame the server writes reads back as what it sent: the first byte
/// carries the final flag and the opcode with no reserved bit, the length it
/// declares is the payload's, in the shortest of the three forms that holds
/// it, and the payload follows unchanged.
pub proof fn law_frame_reads_back(opcode: u8, payload: Seq<u8>)
    requires
        opcode < 16,
        payload.len() <= u64::MAX,
    ensures
        ({
            let f = frame_of(opcode, payload);
            let n = payload.len();
            let head: int = if n <= 125 { 2 } else if n <= 65535 { 4 } else { 10 };
            &&& f.len() == head + n
            &&& f[0] & 0x80u8 == 0x80u8
            &&& f[0] & 0x70u8 == 0
            &&& f[0] & 0x0Fu8 == opcode
            &&& (n <= 125 ==> f[1] == n)
            &&& (125 < n <= 65535 ==> f[1] == 126 && big_endian(f.subrange(2, 4)) == n)
            &&& (65535 < n ==> f[1] == 127 && big_endian(f.subrange(2, 10)) == n)
            &&& f.subrange(head, f.len() as int) =~= payload
        }),
{
    let f = frame_of(opcode, payload);
    let n = payload.len();
    let first: u8 = 0x80u8 | opcode;
    assert(f[0] == first);
    assert(first & 0x80u8 == 0x80u8 && first & 0x70u8 == 0 && first & 0x0Fu8 == opcode) by (bit_vector)
        requires
            first == 0x80u8 | opcode,
            opcode < 16,
    ;
    if 125 < n <= 65535 {
        let hi = (n / 256) as u8;
        let lo = (n % 256) as u8;
        assert(f.subrange(2, 4) =~= seq![hi, lo]);
        assert(seq![hi, lo].drop_last() =~= seq![hi]);
        assert(seq![hi].drop_last() =~= Seq::<u8>::empty());
        assert(hi == n / 256 && lo == n % 256);
        assert((n / 256) * 256 + n % 256 == n) by {
            vstd::arithmetic::div_mod::lemma_fundamental_div_mod(n as int, 256);
        }
        assert(big_endian(Seq::<u8>::empty()) == 0);
        assert(big_endian(seq![hi]) == hi);
        assert(big_endian(seq![hi, lo]) == hi * 256 + lo);
    } else if 65535 < n {
        let m = n as u64;
        let b = length_bytes(m);
        assert(f.subrange(2, 10) =~= b);
        assert(b.drop_last() =~= b.subrange(0, 7));
        assert(b.subrange(0, 7).drop_last() =~= b.subrange(0, 6));
        assert(b.subrange(0, 6).drop_last() =~= b.subrange(0, 5));
        assert(b.subrange(0, 5).drop_last() =~= b.subrange(0, 4));
        assert(b.subrange(0, 4).drop_last() =~= b.subrange(0, 3));
        assert(b.subrange(0, 3).drop_last() =~= b.subrange(0, 2));
        assert(b.subrange(0, 2).drop_last() =~= b.subrange(0, 1));
        assert(b.subrange(0, 1).drop_last() =~= Seq::<u8>::empty());
        let b0 = (m >> 56u64) as u8;
        let b1 = (m >> 48u64) as u8;
        let b2 = (m >> 40u64) as u8;
        let b3 = (m >> 32u64) as u8;
        let b4 = (m >> 24u64) as u8;
        let b5 = (m >> 16u64) as u8;
        let b6 = (m >> 8u64) as u8;
        let b7 = m as u8;
        assert(((((((b0 as int * 256 + b1) * 256 + b2) * 256 + b3) * 256 + b4) * 256 + b5) * 256 + b6) * 256 + b7 == m)
            by (bit_vector)
            requires
                b0 == (m >> 56u64) as u8,
                b1 == (m >> 48u64) as u8,
                b2 == (m >> 40u64) as u8,
                b3 == (m >> 32u64) as u8,
                b4 == (m >> 24u64) as u8,
                b5 == (m >> 16u64) as u8,
                b6 == (m >> 8u64) as u8,
                b7 == m as u8,
        ;
        assert(b[0] == b0 && b[1] == b1 && b[2] == b2 && b[3] == b3);
        assert(b[4] == b4 && b[5] == b5 && b[6] == b6 && b[7] == b7);
        assert(big_endian(Seq::<u8>::empty()) == 0);
        assert(big_endian(b.subrange(0, 1)) == b0);
        assert(big_endian(b.subrange(0, 2)) == b0 * 256 + b1);
        assert(big_endian(b.subrange(0, 3)) == (b0 * 256 + b1) * 256 + b2);
        assert(big_endian(b.subrange(0, 4)) == ((b0 * 256 + b1) * 256 + b2) * 256 + b3);
        assert(big_endian(b.subrange(0, 5)) == (((b0 * 256 + b1) * 256 + b2) * 256 + b3) * 256 + b4);
        assert(big_endian(b.subrange(0, 6)) == ((((b0 * 256 + b1) * 256 + b2) * 256 + b3) * 256 + b4) * 256 + b5);
        assert(big_endian(b.subrange(0, 7)) == (((((b0 * 256 + b1) * 256 + b2) * 256 + b3) * 256 + b4) * 256 + b5) * 256 + b6);
        assert(big_endian(b) == m);
    }
    assert(f.subrange(if n <= 125 { 2int } else if n <= 65535 { 4int } else { 10int }, f.len() as int) =~= payload);
}

/// One frame, as the server writes it.
pub fn frame_bytes(opcode: u8, payload: &[u8]) -> (frame: Vec<u8>)
    ensures
        frame@ == frame_of(opcode, payload@),
{
    let mut frame: Vec<u8> = Vec::new();
    frame.push(0x80 | opcode);
    let n = payload.len();
    if n <= 125 {
        frame.push(n as u8);
    } else if n <= 65535 {
        frame.push(126);
        frame.push((n / 256) as u8);
        frame.push((n % 256) as u8);
    } else {
        let length = n as u64;
        frame.push(127);
        frame.push((length >> 56u64) as u8);
        frame.push((length >> 48u64) as u8);
        frame.push((length >> 40u64) as u8);
        frame.push((length >> 32u64) as u8);
        frame.push((length >> 24u64) as u8);
        frame.push((length >> 16u64) as u8);
        frame.push((length >> 8u64) as u8);
        frame.push(length as u8);
    }
    let ghost head = frame@;
    let mut i: usize = 0;
    while i < n
        invariant
            i <= n,
            n == payload@.len(),
            frame@ == head + payload@.subrange(0, i as int),
        decreases n - i,
    {
        frame.push(payload[i]);
        assert(frame@ =~= head + payload@.subrange(0, i + 1));
        i = i + 1;
    }
    assert(payload@.subrange(0, n as int) =~= payload@);
    assert(frame@ =~= frame_of(opcode, payload@));
    frame
}

} // verus!
