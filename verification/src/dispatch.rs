//! The rules by which a finished request is made ready for the wire: its
//! sequence number, its opcode bytes, the key of its extension and the flags
//! under which its reply is awaited.

use vstd::prelude::*;
use vstd::string::StringSliceAdditionalSpecFns;

verus! {

/// A defect of the server that the reader of a reply has to make up for.
#[derive(Clone, Copy, Debug, PartialEq, Eq, Structural)]
pub enum RequestWorkaround {
    NoWorkaround,
    GlxFbconfigBug,
}

/// How the reply to a request that has been sent is to be treated.
#[derive(Clone, Copy, Debug, PartialEq, Eq, Structural)]
pub struct PendingRequestFlags {
    pub discard_reply: bool,
    pub checked: bool,
    pub expects_fds: bool,
    pub workaround: RequestWorkaround,
}

/// A request on its way to the wire.
#[derive(Clone, Debug)]
pub struct RequestInfo {
    pub data: Vec<u8>,
    pub zero_sized_reply: bool,
    pub opcode: u8,
    pub extension: Option<&'static str>,
    pub expects_fds: bool,
    pub discard_reply: bool,
    pub sequence: Option<u16>,
}

/// What is left to do once a request has been sent.
#[derive(Clone, Copy, Debug, PartialEq, Eq, Structural)]
pub struct Finished {
    /// The sequence number of the request.
    pub sequence: u16,
    /// Whether a reply is to be awaited.
    pub expect_reply: bool,
    /// The flags under which it is awaited.
    pub flags: PendingRequestFlags,
}

/// Why a request could not be made ready.
#[derive(Clone, Copy, Debug, PartialEq, Eq, Structural)]
pub enum DispatchError {
    /// The server does not have the extension that the request belongs to.
    ExtensionNotPresent,
}

/// Whether an extension is named `GLX`.
pub open spec fn named_glx(extension: Option<&'static str>) -> bool {
    match extension {
        Some(name) => name@ == "GLX"@,
        None => false,
    }
}

/// A name is `GLX` exactly where its bytes are those of the three letters.
pub proof fn lemma_glx_bytes(name: &str)
    ensures
        name@ == "GLX"@ <==> name.spec_bytes() == seq![0x47u8, 0x4cu8, 0x58u8],
{
    reveal_strlit("GLX");
    let glx = seq!['G', 'L', 'X'];
    assert("GLX"@ =~= glx);
    assert(vstd::utf8::is_ascii_chars(glx));
    vstd::utf8::is_ascii_chars_encode_utf8(glx);
    assert(vstd::utf8::encode_utf8(glx) =~= seq![0x47u8, 0x4cu8, 0x58u8]);
    if name.spec_bytes() == seq![0x47u8, 0x4cu8, 0x58u8] {
        vstd::utf8::encode_utf8_decode_utf8(name@);
        vstd::utf8::encode_utf8_decode_utf8(glx);
    }
}

/// Four bytes read as a number, the lowest byte first.
pub open spec fn word_low_first(b: Seq<u8>) -> int {
    b[0] + 0x100 * b[1] + 0x1_0000 * b[2] + 0x100_0000 * b[3]
}

/// Four bytes read as a number, the highest byte first.
pub open spec fn word_high_first(b: Seq<u8>) -> int {
    b[3] + 0x100 * b[2] + 0x1_0000 * b[1] + 0x100_0000 * b[0]
}

/// The workaround that a request calls for: requests 17 of `GLX` whose word
/// at byte 32 is `0x10004`, and requests 21 of `GLX`, run into the server's
/// defect; no other request does.
pub open spec fn workaround_for(glx: bool, opcode: u8, word: Option<u32>) -> RequestWorkaround {
    if glx && (opcode == 21 || (opcode == 17 && word == Some(0x10004u32))) {
        RequestWorkaround::GlxFbconfigBug
    } else {
        RequestWorkaround::NoWorkaround
    }
}

/// The low sixteen bits of a request number: the sequence number that goes
/// over the wire.
pub open spec fn wire_sequence(request_number: u64) -> u16 {
    (request_number % 0x1_0000) as u16
}

/// Gives a request the sequence number for the request number that the
/// display has handed out.
pub fn preprocess_request(request_number: u64, pr: RequestInfo) -> (out: RequestInfo)
    ensures
        out.sequence == Some(wire_sequence(request_number)),
        out.data == pr.data,
        out.zero_sized_reply == pr.zero_sized_reply,
        out.opcode == pr.opcode,
        out.extension == pr.extension,
        out.expects_fds == pr.expects_fds,
        out.discard_reply == pr.discard_reply,
{
    let mut out = pr;
    out.sequence = Some((request_number % 0x1_0000) as u16);
    out
}

/// Whether an extension is named `GLX`.
pub fn is_glx(extension: Option<&'static str>) -> (glx: bool)
    ensures
        glx == named_glx(extension),
{
    match extension {
        Some(name) => {
            let bytes = name.as_bytes();
            let glx = bytes.len() == 3 && bytes[0] == 0x47 && bytes[1] == 0x4c && bytes[2] == 0x58;
            proof {
                lemma_glx_bytes(name);
                if glx {
                    assert(bytes@ =~= seq![0x47u8, 0x4cu8, 0x58u8]);
                }
            }
            glx
        },
        None => false,
    }
}

/// Picks the workaround for a request from whether its extension is `GLX`,
/// its opcode and the word at byte 32 of its data, if it has one.
pub fn decide_workaround(glx: bool, opcode: u8, word: Option<u32>) -> (w: RequestWorkaround)
    ensures
        w == workaround_for(glx, opcode, word),
{
    if !glx {
        return RequestWorkaround::NoWorkaround;
    }
    match (opcode, word) {
        (17, Some(0x10004)) => RequestWorkaround::GlxFbconfigBug,
        (21, _) => RequestWorkaround::GlxFbconfigBug,
        _ => RequestWorkaround::NoWorkaround,
    }
}

/// Reads four bytes as a number in the byte order of the machine, as
/// `u32::from_ne_bytes` of std does. Which order that is depends on the
/// machine: the contract only says that it is one of the two.
#[verifier::external_body]
fn native_word(bytes: [u8; 4]) -> (word: u32)
    ensures
        word == word_low_first(bytes@) || word == word_high_first(bytes@),
{
    u32::from_ne_bytes(bytes)
}

/// The word at byte 32 of a request's data, in the byte order of the
/// machine; none where the data ends before byte 36.
pub fn word_at_32(data: &[u8]) -> (word: Option<u32>)
    ensures
        data@.len() < 36 ==> word.is_none(),
        data@.len() >= 36 ==> word.is_some() && (word.unwrap() == word_low_first(
            data@.subrange(32, 36),
        ) || word.unwrap() == word_high_first(data@.subrange(32, 36))),
{
    if data.len() < 36 {
        None
    } else {
        let bytes: [u8; 4] = [data[32], data[33], data[34], data[35]];
        proof {
            assert(bytes@ =~= data@.subrange(32, 36));
        }
        Some(native_word(bytes))
    }
}

/// Settles how the reply to a sent request is treated, on a display that
/// checks its requests or does not. A reply is awaited unless the request has
/// an empty reply and the display does not check.
pub fn finish_request(checked: bool, pr: RequestInfo) -> (done: Finished)
    requires
        pr.sequence.is_some(),
    ensures
        done.sequence == pr.sequence.unwrap(),
        done.expect_reply == (!pr.zero_sized_reply || checked),
        done.flags.expects_fds == pr.expects_fds,
        done.flags.discard_reply == pr.discard_reply,
        done.flags.checked == (pr.zero_sized_reply && checked),
        pr.data@.len() < 36 ==> done.flags.workaround == workaround_for(
            named_glx(pr.extension),
            pr.opcode,
            None,
        ),
        pr.data@.len() >= 36 ==> done.flags.workaround == workaround_for(
            named_glx(pr.extension),
            pr.opcode,
            Some(word_low_first(pr.data@.subrange(32, 36)) as u32),
        ) || done.flags.workaround == workaround_for(
            named_glx(pr.extension),
            pr.opcode,
            Some(word_high_first(pr.data@.subrange(32, 36)) as u32),
        ),
{
    let word = word_at_32(pr.data.as_slice());
    let workaround = decide_workaround(is_glx(pr.extension), pr.opcode, word);
    Finished {
        sequence: pr.sequence.unwrap(),
        expect_reply: !pr.zero_sized_reply || checked,
        flags: PendingRequestFlags {
            discard_reply: pr.discard_reply,
            checked: pr.zero_sized_reply && checked,
            expects_fds: pr.expects_fds,
            workaround,
        },
    }
}

/// Writes the opcodes into the head of a request: the request's opcode into
/// the first byte, or, for a request of an extension, the extension's opcode
/// into the first byte and the request's into the second.
pub fn modify_for_opcode(bytes: &mut [u8], request_opcode: u8, ext_opcode: Option<u8>)
    requires
        old(bytes)@.len() > 0,
        ext_opcode.is_some() ==> old(bytes)@.len() > 1,
    ensures
        final(bytes)@ == match ext_opcode {
            None => old(bytes)@.update(0, request_opcode),
            Some(extension) => old(bytes)@.update(0, extension).update(1, request_opcode),
        },
{
    match ext_opcode {
        None => {
            bytes[0] = request_opcode;
        },
        Some(extension) => {
            bytes[0] = extension;
            bytes[1] = request_opcode;
        },
    }
}

/// Makes a request ready for the wire, once the display has handed out its
/// request number and the opcode of its extension is known: the request gets
/// its sequence number, and its data the opcodes.
pub fn send_request(request_number: u64, request_info: RequestInfo, ext_opcode: Option<u8>) -> (out:
    RequestInfo)
    requires
        request_info.data@.len() > 0,
        ext_opcode.is_some() ==> request_info.data@.len() > 1,
    ensures
        out.sequence == Some(wire_sequence(request_number)),
        out.data@ == match ext_opcode {
            None => request_info.data@.update(0, request_info.opcode),
            Some(extension) => request_info.data@.update(0, extension).update(
                1,
                request_info.opcode,
            ),
        },
        out.zero_sized_reply == request_info.zero_sized_reply,
        out.opcode == request_info.opcode,
        out.extension == request_info.extension,
        out.expects_fds == request_info.expects_fds,
        out.discard_reply == request_info.discard_reply,
{
    let mut req = preprocess_request(request_number, request_info);
    let request_opcode = req.opcode;
    modify_for_opcode(req.data.as_mut_slice(), request_opcode, ext_opcode);
    req
}

/// What the server's answer to the question after an extension means: the
/// extension's opcode, or that the server does not have the extension.
pub fn get_ext_opcode(present: bool, major_opcode: u8) -> (r: Result<u8, DispatchError>)
    ensures
        present ==> r == Ok::<u8, DispatchError>(major_opcode),
        !present ==> r == Err::<u8, DispatchError>(DispatchError::ExtensionNotPresent),
{
    if !present {
        return Err(DispatchError::ExtensionNotPresent);
    }
    Ok(major_opcode)
}

/// The key of an extension: the first `N` bytes of its name.
pub fn str_to_key<const N: usize>(s: &str) -> (key: [u8; N])
    requires
        s.spec_bytes().len() >= N,
    ensures
        key@ == s.spec_bytes().take(N as int),
{
    let mut key = [0u8;N];
    let b = s.as_bytes();
    let mut i: usize = 0;
    while i < N
        invariant
            i <= N,
            b@ == s.spec_bytes(),
            b@.len() >= N,
            key@.len() == N,
            forall|k: int| 0 <= k < i ==> key@[k] == b@[k],
        decreases N - i,
    {
        key[i] = b[i];
        i += 1;
    }
    proof {
        assert(key@ =~= s.spec_bytes().take(N as int));
    }
    key
}

} // verus!
