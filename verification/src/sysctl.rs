//! Decoding of the byte buffers that `sysctl` and libproc return.

use vstd::prelude::*;
use crate::text::{chars_of, decode_lossy, string_of, trim_chars, trimmed, utf8_lossy};

verus! {

/// The index of the first NUL byte at or after `i`, or the length.
pub open spec fn nul_from(b: Seq<u8>, i: int) -> int
    decreases b.len() - i,
{
    if i >= b.len() || i < 0 { if i < 0 { 0 } else { b.len() as int } } else if b[i] == 0 { i } else { nul_from(b, i + 1) }
}

/// The index of the first non-NUL byte at or after `i`, or the length.
pub open spec fn past_nuls(b: Seq<u8>, i: int) -> int
    decreases b.len() - i,
{
    if i >= b.len() || i < 0 { if i < 0 { 0 } else { b.len() as int } } else if b[i] != 0 { i } else { past_nuls(b, i + 1) }
}

/// The first NUL at or after `i` lies between `i` and the end.
pub proof fn lemma_nul_from(b: Seq<u8>, i: int)
    requires
        0 <= i <= b.len(),
    ensures
        i <= nul_from(b, i) <= b.len(),
    decreases b.len() - i,
{
    if i < b.len() && b[i] != 0 {
        lemma_nul_from(b, i + 1);
    }
}

/// The first non-NUL byte at or after `i` lies between `i` and the end.
pub proof fn lemma_past_nuls(b: Seq<u8>, i: int)
    requires
        0 <= i,
    ensures
        past_nuls(b, i) <= b.len(),
        i <= b.len() ==> i <= past_nuls(b, i),
    decreases b.len() - i,
{
    if i < b.len() && b[i] == 0 {
        lemma_past_nuls(b, i + 1);
    }
}

/// A C string: the text before the first NUL, decoded leniently.
pub open spec fn c_text(b: Seq<u8>) -> Seq<char> {
    utf8_lossy(b.subrange(0, nul_from(b, 0)))
}

fn first_nul(bytes: &[u8], from: usize) -> (end: usize)
    requires
        from <= bytes.len(),
    ensures
        end == nul_from(bytes@, from as int),
        from <= end <= bytes.len(),
        forall|i: int| from <= i < end ==> bytes@[i] != 0,
{
    let mut end = from;
    while end < bytes.len() && bytes[end] != 0
        invariant
            from <= end <= bytes.len(),
            nul_from(bytes@, from as int) == nul_from(bytes@, end as int),
            forall|i: int| from <= i < end ==> bytes@[i] != 0,
        decreases bytes.len() - end,
    {
        end = end + 1;
    }
    end
}

fn skip_nuls(bytes: &[u8], from: usize) -> (next: usize)
    requires
        from <= bytes.len(),
    ensures
        next == past_nuls(bytes@, from as int),
{
    let mut next = from;
    while next < bytes.len() && bytes[next] == 0
        invariant
            from <= next <= bytes.len(),
            past_nuls(bytes@, from as int) == past_nuls(bytes@, next as int),
        decreases bytes.len() - next,
    {
        next = next + 1;
    }
    next
}

fn slice_to_vec(bytes: &[u8], start: usize, end: usize) -> (v: Vec<u8>)
    requires
        start <= end <= bytes.len(),
    ensures
        v@ == bytes@.subrange(start as int, end as int),
{
    let mut v: Vec<u8> = Vec::new();
    let mut i = start;
    while i < end
        invariant
            start <= i <= end <= bytes.len(),
            v@ == bytes@.subrange(start as int, i as int),
        decreases end - i,
    {
        v.push(bytes[i]);
        assert(bytes@.subrange(start as int, i + 1) == bytes@.subrange(start as int, i as int).push(bytes@[i as int]));
        i = i + 1;
    }
    v
}

/// A fixed-size C character field as text (see `c_text`).
pub fn c_string(bytes: &[u8]) -> (s: String)
    ensures
        s@ == c_text(bytes@),
{
    let end = first_nul(bytes, 0);
    proof {
        lemma_nul_from(bytes@, 0);
    }
    let head = slice_to_vec(bytes, 0, end);
    decode_lossy(head.as_slice())
}

/// A string-valued sysctl: the C string, without surrounding white space.
pub fn text_value(bytes: &[u8]) -> (s: String)
    ensures
        s@ == trimmed(c_text(bytes@)),
{
    let raw = c_string(bytes);
    let chars = chars_of(raw.as_str());
    let t = trim_chars(&chars);
    string_of(&t)
}

/// Four bytes read as a two's-complement `i32`, least significant first.
pub open spec fn little_endian_i32(b0: u8, b1: u8, b2: u8, b3: u8) -> i32 {
    let v = b0 as int + b1 as int * 0x100 + b2 as int * 0x10000 + b3 as int * 0x1000000;
    (if v >= 0x80000000 { v - 0x100000000 } else { v }) as i32
}

/// Four bytes read as a two's-complement `i32`, most significant first.
pub open spec fn big_endian_i32(b0: u8, b1: u8, b2: u8, b3: u8) -> i32 {
    little_endian_i32(b3, b2, b1, b0)
}

/// `i32::from_ne_bytes`: reads four bytes in the machine's byte order,
/// which is little- or big-endian; which one is not stated.
#[verifier::external_body]
fn native_i32(b0: u8, b1: u8, b2: u8, b3: u8) -> (v: i32)
    ensures
        v == little_endian_i32(b0, b1, b2, b3) || v == big_endian_i32(b0, b1, b2, b3),
{
    i32::from_ne_bytes([b0, b1, b2, b3])
}

/// An argument count as the buffer's header gives it, at least zero.
pub open spec fn count_of(argc: i32) -> nat {
    if argc > 0 { argc as nat } else { 0 }
}

/// The arguments from `cursor` on, at most `remaining` of them: each runs to
/// the next NUL, and runs of NULs between them are skipped.
pub open spec fn arguments_from(b: Seq<u8>, cursor: int, remaining: nat) -> Seq<Seq<char>>
    decreases b.len() - cursor,
{
    if cursor < 0 || cursor >= b.len() || remaining == 0 {
        Seq::empty()
    } else {
        let end = nul_from(b, cursor);
        let next = past_nuls(b, end + 1);
        proof {
            lemma_nul_from(b, cursor);
            lemma_past_nuls(b, end + 1);
        }
        if next <= cursor {
            Seq::empty()
        } else if end > cursor {
            seq![utf8_lossy(b.subrange(cursor, end))] + arguments_from(b, next, (remaining - 1) as nat)
        } else {
            arguments_from(b, next, remaining)
        }
    }
}

/// The argument vector in a `KERN_PROCARGS2` buffer whose header gives the
/// argument count `argc`: after the header and the executable path (and the
/// NULs that pad it), up to that many NUL-terminated strings.
pub open spec fn arguments_with_count(b: Seq<u8>, argc: i32) -> Seq<Seq<char>> {
    if b.len() < 4 {
        Seq::empty()
    } else {
        arguments_from(b, past_nuls(b, nul_from(b, 4)), count_of(argc))
    }
}

/// The argument vectors a `KERN_PROCARGS2` buffer can hold: its header,
/// read in the machine's byte order, gives the argument count, so `args`
/// is the vector for the little- or the big-endian reading of it.
pub open spec fn is_process_arguments(b: Seq<u8>, args: Seq<Seq<char>>) -> bool {
    if b.len() < 4 {
        args == Seq::<Seq<char>>::empty()
    } else {
        ||| args == arguments_with_count(b, little_endian_i32(b[0], b[1], b[2], b[3]))
        ||| args == arguments_with_count(b, big_endian_i32(b[0], b[1], b[2], b[3]))
    }
}

/// The arguments of a `KERN_PROCARGS2` buffer whose header gives the
/// argument count `argc` (see `arguments_with_count`).
pub fn arguments_after_header(buffer: &[u8], argc: i32) -> (args: Vec<String>)
    ensures
        args@.map_values(|s: String| s@) == arguments_with_count(buffer@, argc),
        forall|k: int| 0 <= k < args@.len() ==> #[trigger] args@[k]@.len() > 0 && !args@[k]@.contains('\0'),
{
    let mut args: Vec<String> = Vec::new();
    if buffer.len() < 4 {
        assert(args@.map_values(|s: String| s@) =~= Seq::<Seq<char>>::empty());
        return args;
    }
    let wanted: usize = if argc > 0 { argc as usize } else { 0 };
    proof {
        lemma_nul_from(buffer@, 4);
    }
    let path_end = first_nul(buffer, 4);
    proof {
        lemma_past_nuls(buffer@, path_end as int);
    }
    let mut cursor = skip_nuls(buffer, path_end);
    assert(args@.map_values(|s: String| s@) =~= Seq::<Seq<char>>::empty());
    while cursor < buffer.len() && args.len() < wanted
        invariant
            cursor <= buffer.len(),
            wanted == count_of(argc),
            args.len() <= wanted,
            arguments_with_count(buffer@, argc) == args@.map_values(|s: String| s@)
                + arguments_from(buffer@, cursor as int, (wanted - args.len()) as nat),
            forall|k: int| 0 <= k < args@.len() ==> #[trigger] args@[k]@.len() > 0 && !args@[k]@.contains('\0'),
        decreases buffer.len() - cursor,
    {
        proof {
            lemma_nul_from(buffer@, cursor as int);
        }
        let end = first_nul(buffer, cursor);
        let ghost before = args@.map_values(|s: String| s@);
        if end > cursor {
            let item = slice_to_vec(buffer, cursor, end);
            assert(forall|i: int| 0 <= i < item@.len() ==> item@[i] == buffer@[cursor + i]);
            let ghost old_args = args@;
            args.push(decode_lossy(item.as_slice()));
            assert(forall|k: int| 0 <= k < old_args.len() ==> args@[k] == old_args[k]);
            assert(args@.map_values(|s: String| s@) =~= before.push(utf8_lossy(buffer@.subrange(cursor as int, end as int))));
        }
        let after = if end < buffer.len() { end + 1 } else { end };
        proof {
            lemma_past_nuls(buffer@, after as int);
            if end >= buffer.len() {
                assert(past_nuls(buffer@, end + 1) == buffer.len());
                assert(past_nuls(buffer@, end as int) == buffer.len());
            }
        }
        let next = skip_nuls(buffer, after);
        proof {
            assert(next == past_nuls(buffer@, end + 1));
            assert(next > cursor);
        }
        cursor = next;
    }
    proof {
        assert(arguments_from(buffer@, cursor as int, (wanted - args.len()) as nat) == Seq::<Seq<char>>::empty());
    }
    args
}

/// Parses a `KERN_PROCARGS2` buffer into the process's arguments (see
/// `is_process_arguments`).
pub fn parse_process_arguments(buffer: &[u8]) -> (args: Vec<String>)
    ensures
        is_process_arguments(buffer@, args@.map_values(|s: String| s@)),
        forall|k: int| 0 <= k < args@.len() ==> #[trigger] args@[k]@.len() > 0 && !args@[k]@.contains('\0'),
{
    if buffer.len() < 4 {
        let args: Vec<String> = Vec::new();
        assert(args@.map_values(|s: String| s@) =~= Seq::<Seq<char>>::empty());
        return args;
    }
    let argc = native_i32(buffer[0], buffer[1], buffer[2], buffer[3]);
    arguments_after_header(buffer, argc)
}

proof fn lemma_nul_at(b: Seq<u8>, i: int, j: int)
    requires
        0 <= i <= j < b.len(),
        b[j] == 0,
        forall|k: int| i <= k < j ==> b[k] != 0,
    ensures
        nul_from(b, i) == j,
    decreases j - i,
{
    if i < j {
        lemma_nul_at(b, i + 1, j);
    }
}

proof fn lemma_past_at(b: Seq<u8>, i: int, j: int)
    requires
        0 <= i <= j <= b.len(),
        j == b.len() || b[j] != 0,
        forall|k: int| i <= k < j ==> b[k] == 0,
    ensures
        past_nuls(b, i) == j,
    decreases j - i,
{
    if i < j {
        lemma_past_at(b, i + 1, j);
    }
}

proof fn lemma_arguments_at_most(b: Seq<u8>, cursor: int, remaining: nat)
    ensures
        arguments_from(b, cursor, remaining).len() <= remaining,
    decreases b.len() - cursor,
{
    if !(cursor < 0 || cursor >= b.len() || remaining == 0) {
        let end = nul_from(b, cursor);
        let next = past_nuls(b, end + 1);
        lemma_nul_from(b, cursor);
        lemma_past_nuls(b, end + 1);
        if next > cursor {
            if end > cursor {
                lemma_arguments_at_most(b, next, (remaining - 1) as nat);
            } else {
                lemma_arguments_at_most(b, next, remaining);
            }
        }
    }
}

/// A process never gets more arguments than its buffer's header counts,
/// and none when the count is zero or negative.
pub proof fn lemma_argument_count(b: Seq<u8>, argc: i32)
    ensures
        argc > 0 ==> arguments_with_count(b, argc).len() <= argc,
        argc <= 0 ==> arguments_with_count(b, argc) == Seq::<Seq<char>>::empty(),
{
    if b.len() >= 4 {
        lemma_nul_from(b, 4);
        lemma_arguments_at_most(b, past_nuls(b, nul_from(b, 4)), count_of(argc));
    }
}

/// The executable path is not an argument: in a buffer made of the
/// four-byte header, the path, its NUL, one argument and its NUL, with a
/// count of one, that argument is all there is.
pub proof fn lemma_single_argument(header: Seq<u8>, path: Seq<u8>, arg: Seq<u8>, argc: i32)
    requires
        header.len() == 4,
        path.len() > 0,
        arg.len() > 0,
        forall|k: int| 0 <= k < path.len() ==> path[k] != 0,
        forall|k: int| 0 <= k < arg.len() ==> arg[k] != 0,
        argc == 1,
    ensures
        arguments_with_count(header + path + seq![0u8] + arg + seq![0u8], argc) == seq![utf8_lossy(arg)],
{
    let b = header + path + seq![0u8] + arg + seq![0u8];
    let path_end: int = 4 + path.len() as int;
    let start: int = path_end + 1;
    let end: int = start + arg.len();
    assert forall|k: int| 4 <= k < path_end implies b[k] != 0 by {
        assert(b[k] == path[k - 4]);
    }
    lemma_nul_at(b, 4, path_end);
    assert(b[start] == arg[0]);
    lemma_past_at(b, path_end, start);
    assert forall|k: int| start <= k < end implies b[k] != 0 by {
        assert(b[k] == arg[k - start]);
    }
    lemma_nul_at(b, start, end);
    lemma_past_at(b, end + 1, end + 1);
    assert(b.subrange(start, end) =~= arg);
    assert(count_of(argc) == 1);
    assert(arguments_from(b, end + 1, 0) == Seq::<Seq<char>>::empty());
    assert(arguments_from(b, start, 1) =~= seq![utf8_lossy(arg)]);
}

} // verus!
