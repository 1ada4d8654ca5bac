use vstd::prelude::*;
use vstd::utf8::valid_utf8;
use vstd::utf8::decode_utf8;
use vstd::utf8::encode_utf8;
use vstd::utf8::encode_scalar;
use vstd::utf8::is_scalar;
use crate::text::runs;

verus! {

/// What `String::from_utf8_lossy` makes of a byte string: valid UTF-8 is
/// decoded, each invalid sequence becomes `U+FFFD`.
pub uninterp spec fn utf8_lossy(bytes: Seq<u8>) -> Seq<char>;

/// Calls `String::from_utf8_lossy(bytes).into_owned()`. Claimed: the result is
/// the named decoding of `bytes`; for valid UTF-8 it is the decoded text; it
/// is empty only for empty input, since every byte either belongs to a decoded
/// character or to a sequence replaced by `U+FFFD`; and it holds `'\0'` only
/// where the input holds a NUL byte, the one encoding of `'\0'`. Where `bytes`
/// is not valid UTF-8, nothing is said of where the replacement characters
/// stand.
#[verifier::external_body]
fn decode_lossy(bytes: &[u8]) -> (s: String)
    ensures
        s@ == utf8_lossy(bytes@),
        valid_utf8(bytes@) ==> s@ == decode_utf8(bytes@),
        bytes@.len() > 0 ==> s@.len() > 0,
        (forall|j: int| 0 <= j < bytes@.len() ==> bytes@[j] != 0) ==> forall|i: int|
            0 <= i < s@.len() ==> s@[i] != '\0',
{
    String::from_utf8_lossy(bytes).into_owned()
}

/// What `String::from_utf16_lossy` makes of UTF-16 code units: valid UTF-16
/// is decoded, each unpaired surrogate becomes `U+FFFD`.
pub uninterp spec fn utf16_lossy(units: Seq<u16>) -> Seq<char>;

/// Calls `String::from_utf16_lossy`. Claimed: the result is the named
/// decoding of `units`.
#[verifier::external_body]
fn decode_utf16_lossy(units: &[u16]) -> (s: String)
    ensures
        s@ == utf16_lossy(units@),
{
    String::from_utf16_lossy(units)
}

/// Windows: the text of a remote `UNICODE_STRING` of `length` bytes, read
/// into `units`: decoded when the read succeeded and read every byte, else
/// nothing.
pub fn remote_text(ok: bool, read: usize, length: u16, units: &[u16]) -> (r: Option<String>)
    ensures
        r is Some <==> (ok && read == length),
        r matches Some(s) ==> s@ == utf16_lossy(units@),
{
    if crate::platform::complete_read(ok, read, length) {
        Some(decode_utf16_lossy(units))
    } else {
        None
    }
}

/// Each byte string decoded with `utf8_lossy`, in order.
pub open spec fn decoded(pieces: Seq<Seq<u8>>) -> Seq<Seq<char>>
    decreases pieces.len(),
{
    if pieces.len() == 0 {
        Seq::empty()
    } else {
        decoded(pieces.drop_last()).push(utf8_lossy(pieces.last()))
    }
}

/// The text of each string.
pub open spec fn texts(v: Seq<String>) -> Seq<Seq<char>> {
    v.map_values(|s: String| s@)
}

/// Each piece that is valid UTF-8 reads as exactly the text it encodes.
pub open spec fn faithful(pieces: Seq<Seq<u8>>, texts: Seq<Seq<char>>) -> bool {
    &&& texts.len() == pieces.len()
    &&& forall|k: int|
        0 <= k < pieces.len() && valid_utf8(#[trigger] pieces[k]) ==> texts[k] == decode_utf8(
            pieces[k],
        )
}

proof fn lemma_nul_free_push(ts: Seq<Seq<char>>, s: Seq<char>)
    requires
        nul_free_texts(ts),
        s.len() > 0,
        forall|i: int| 0 <= i < s.len() ==> s[i] != '\0',
    ensures
        nul_free_texts(ts.push(s)),
{
    assert forall|k: int| 0 <= k < ts.push(s).len() implies (#[trigger] ts.push(s)[k]).len() > 0
        && forall|j: int| 0 <= j < ts.push(s)[k].len() ==> #[trigger] ts.push(s)[k][j] != '\0' by {
        if k < ts.len() {
            assert(ts.push(s)[k] == ts[k]);
        }
    }
}

proof fn lemma_faithful_push(pieces: Seq<Seq<u8>>, ts: Seq<Seq<char>>, p: Seq<u8>, s: Seq<char>)
    requires
        faithful(pieces, ts),
        valid_utf8(p) ==> s == decode_utf8(p),
    ensures
        faithful(pieces.push(p), ts.push(s)),
{
    assert forall|k: int|
        0 <= k < pieces.push(p).len() && valid_utf8(#[trigger] pieces.push(p)[k]) implies ts.push(
            s,
        )[k] == decode_utf8(pieces.push(p)[k]) by {
        if k < pieces.len() {
            assert(pieces.push(p)[k] == pieces[k]);
        }
    }
}

/// The non-empty pieces between NUL bytes.
pub open spec fn nul_runs(s: Seq<u8>) -> Seq<Seq<u8>> {
    runs(s, |b: u8| b == 0)
}

/// Split the content of a `/proc/{pid}/cmdline` file into arguments: the
/// non-empty pieces between NUL bytes, each decoded lossily from UTF-8.
pub fn split_nul_arguments(content: &[u8]) -> (r: Vec<String>)
    ensures
        texts(r@) == decoded(nul_runs(content@)),
        faithful(nul_runs(content@), texts(r@)),
        nul_free_texts(texts(r@)),
        forall|strings: Seq<Seq<char>>|
            nul_free_texts(strings) && #[trigger] nul_joined(encoded(strings)) == content@ ==> texts(
                r@,
            ) == strings,
{
    let n = content.len();
    let mut out: Vec<String> = Vec::new();
    let mut start: usize = 0;
    let mut in_arg = false;
    let mut i: usize = 0;
    let ghost mut done: Seq<Seq<u8>> = Seq::empty();
    assert(content@.take(0) =~= Seq::<u8>::empty());
    while i < n
        invariant
            n == content@.len(),
            0 <= start <= i <= n,
            in_arg ==> start < i,
            in_arg <==> (i > 0 && content@[i - 1] != 0),
            nul_runs(content@.take(i as int)) == (if in_arg {
                done.push(content@.subrange(start as int, i as int))
            } else {
                done
            }),
            texts(out@) == decoded(done),
            faithful(done, texts(out@)),
            nul_free_texts(texts(out@)),
            forall|j: int| in_arg && start <= j < i ==> content@[j] != 0,
        decreases n - i,
    {
        let ghost s1 = content@.take(i + 1);
        assert(s1.drop_last() =~= content@.take(i as int));
        assert(s1.last() == content@[i as int]);
        if content[i] == 0 {
            if in_arg {
                let ghost w = content@.subrange(start as int, i as int);
                let arg = decode_lossy(&content[start..i]);
                proof {
                    assert(done.push(w).drop_last() =~= done);
                    assert(texts(out@.push(arg)) =~= texts(out@).push(arg@));
                    assert(content@.subrange(start as int, i as int) == w);
                    lemma_faithful_push(done, texts(out@), w, arg@);
                    lemma_nul_free_push(texts(out@), arg@);
                    done = done.push(w);
                }
                out.push(arg);
                in_arg = false;
            }
        } else {
            if in_arg {
                assert(s1[s1.len() - 2] == content@[i - 1]);
                assert(content@.subrange(start as int, i + 1) =~= content@.subrange(
                    start as int,
                    i as int,
                ).push(content@[i as int]));
            } else {
                assert(i > 0 ==> s1[s1.len() - 2] == content@[i - 1]);
                assert(content@.subrange(i as int, i + 1) =~= seq![content@[i as int]]);
                start = i;
                in_arg = true;
            }
        }
        i = i + 1;
    }
    assert(content@.take(n as int) =~= content@);
    if in_arg {
        let ghost w = content@.subrange(start as int, n as int);
        let arg = decode_lossy(&content[start..n]);
        proof {
            assert(done.push(w).drop_last() =~= done);
            assert(texts(out@.push(arg)) =~= texts(out@).push(arg@));
            lemma_faithful_push(done, texts(out@), w, arg@);
            lemma_nul_free_push(texts(out@), arg@);
        }
        out.push(arg);
    }
    proof {
        assert forall|strings: Seq<Seq<char>>|
            nul_free_texts(strings) && #[trigger] nul_joined(encoded(strings)) == content@ implies texts(
                out@,
            ) == strings by {
            lemma_split_joined_texts(strings);
            let pieces = encoded(strings);
            assert forall|k: int| 0 <= k < strings.len() implies texts(out@)[k] == strings[k] by {
                assert(valid_utf8(pieces[k]));
            }
            assert(texts(out@) =~= strings);
        }
    }
    out
}


// ---------------------------------------------------------------------------
// macOS `KERN_PROCARGS2` buffers
// ---------------------------------------------------------------------------

/// The number of leading bytes that are not NUL.
pub open spec fn nonzero_prefix_len(s: Seq<u8>) -> nat
    decreases s.len(),
{
    if s.len() > 0 && s[0] != 0 {
        1 + nonzero_prefix_len(s.drop_first())
    } else {
        0
    }
}

/// The number of leading NUL bytes.
pub open spec fn zero_prefix_len(s: Seq<u8>) -> nat
    decreases s.len(),
{
    if s.len() > 0 && s[0] == 0 {
        1 + zero_prefix_len(s.drop_first())
    } else {
        0
    }
}

/// Up to `count` consecutive NUL-terminated strings at the start of `s`; the
/// last may run to the end of `s`, and an empty string ends the list.
pub open spec fn leading_strings(s: Seq<u8>, count: nat) -> Seq<Seq<u8>>
    decreases count,
{
    let e = nonzero_prefix_len(s);
    if count == 0 || s.len() == 0 || e == 0 {
        Seq::empty()
    } else {
        let rest = if e < s.len() {
            s.skip(e + 1int)
        } else {
            Seq::empty()
        };
        seq![s.take(e as int)] + leading_strings(rest, (count - 1) as nat)
    }
}

/// The argument strings of a `KERN_PROCARGS2` buffer whose leading count is
/// `argc`: the layout is `argc | exec_path | NUL padding | argv[0..argc] |
/// environment`, so the executable path and its padding are skipped and at
/// most `argc` strings are taken, which keeps the environment out.
pub open spec fn spec_procargs(buffer: Seq<u8>, argc: i32) -> Seq<Seq<u8>> {
    if buffer.len() <= 4 || argc <= 0 {
        Seq::empty()
    } else {
        let after_count = buffer.skip(4);
        let after_path = after_count.skip(nonzero_prefix_len(after_count) as int);
        let args = after_path.skip(zero_prefix_len(after_path) as int);
        leading_strings(args, argc as nat)
    }
}

/// The little-endian `i32` that four bytes represent.
pub open spec fn le_i32(b: Seq<u8>) -> int {
    let u = b[0] as int + 256 * (b[1] as int) + 65536 * (b[2] as int) + 16777216 * (b[3] as int);
    if u >= 0x8000_0000 {
        u - 0x1_0000_0000
    } else {
        u
    }
}

/// The big-endian `i32` that four bytes represent.
pub open spec fn be_i32(b: Seq<u8>) -> int {
    let u = b[3] as int + 256 * (b[2] as int) + 65536 * (b[1] as int) + 16777216 * (b[0] as int);
    if u >= 0x8000_0000 {
        u - 0x1_0000_0000
    } else {
        u
    }
}

/// The `i32` that four bytes represent in the given byte order.
pub open spec fn bytes_i32(b: Seq<u8>, little_endian: bool) -> int {
    if little_endian {
        le_i32(b)
    } else {
        be_i32(b)
    }
}

/// `i32::from_le_bytes` or `i32::from_be_bytes`, by `little_endian`.
pub fn i32_from_bytes(bytes: [u8; 4], little_endian: bool) -> (r: i32)
    ensures
        r == bytes_i32(bytes@, little_endian),
{
    let (a, b, c, d) = if little_endian {
        (bytes[0], bytes[1], bytes[2], bytes[3])
    } else {
        (bytes[3], bytes[2], bytes[1], bytes[0])
    };
    let u: u64 = a as u64 + 256 * (b as u64) + 65536 * (c as u64) + 16777216 * (d as u64);
    if u >= 0x8000_0000 {
        (u as i64 - 0x1_0000_0000) as i32
    } else {
        u as i32
    }
}

proof fn lemma_nonzero_step(s: Seq<u8>, k: int)
    requires
        0 <= k < s.len(),
        s[k] != 0,
    ensures
        nonzero_prefix_len(s.skip(k)) == 1 + nonzero_prefix_len(s.skip(k + 1)),
{
    assert(s.skip(k).drop_first() =~= s.skip(k + 1));
}

proof fn lemma_zero_step(s: Seq<u8>, k: int)
    requires
        0 <= k < s.len(),
        s[k] == 0,
    ensures
        zero_prefix_len(s.skip(k)) == 1 + zero_prefix_len(s.skip(k + 1)),
{
    assert(s.skip(k).drop_first() =~= s.skip(k + 1));
}

proof fn lemma_skip_skip(s: Seq<u8>, a: int, b: int)
    requires
        0 <= a,
        0 <= b,
        a + b <= s.len(),
    ensures
        s.skip(a).skip(b) == s.skip(a + b),
{
    assert(s.skip(a).skip(b) =~= s.skip(a + b));
}

/// The first index at or after `from` that holds a NUL byte, or the length.
pub fn find_nul(buffer: &[u8], from: usize) -> (end: usize)
    requires
        from <= buffer@.len(),
    ensures
        from <= end <= buffer@.len(),
        end == from + nonzero_prefix_len(buffer@.skip(from as int)),
{
    let mut end = from;
    while end < buffer.len() && buffer[end] != 0
        invariant
            from <= end <= buffer@.len(),
            nonzero_prefix_len(buffer@.skip(from as int)) == (end - from) + nonzero_prefix_len(
                buffer@.skip(end as int),
            ),
        decreases buffer@.len() - end,
    {
        proof {
            lemma_nonzero_step(buffer@, end as int);
        }
        end = end + 1;
    }
    if end < buffer.len() {
        assert(buffer@.skip(end as int)[0] == 0);
    }
    end
}

/// The argument strings of a `KERN_PROCARGS2` buffer, given the count that
/// its first four bytes hold.
pub fn procargs_with_argc(buffer: &[u8], argc: i32) -> (r: Vec<String>)
    ensures
        texts(r@) == decoded(spec_procargs(buffer@, argc)),
        faithful(spec_procargs(buffer@, argc), texts(r@)),
        nul_free_texts(texts(r@)),
{
    let n = buffer.len();
    let mut args: Vec<String> = Vec::new();
    if n <= 4 || argc <= 0 {
        return args;
    }
    let ghost after_count = buffer@.skip(4);
    // Skip the executable path.
    let path_end = find_nul(buffer, 4);
    let ghost after_path = buffer@.skip(path_end as int);
    proof {
        lemma_skip_skip(buffer@, 4, nonzero_prefix_len(after_count) as int);
    }
    assert(after_path == after_count.skip(nonzero_prefix_len(after_count) as int));
    // Skip the NUL padding after it.
    let mut offset = path_end;
    while offset < n && buffer[offset] == 0
        invariant
            n == buffer@.len(),
            path_end <= offset <= n,
            zero_prefix_len(after_path) == (offset - path_end) + zero_prefix_len(
                buffer@.skip(offset as int),
            ),
            after_path == buffer@.skip(path_end as int),
        decreases n - offset,
    {
        proof {
            lemma_zero_step(buffer@, offset as int);
        }
        offset = offset + 1;
    }
    if offset < n {
        assert(buffer@.skip(offset as int)[0] != 0);
    }
    proof {
        lemma_skip_skip(buffer@, path_end as int, zero_prefix_len(after_path) as int);
    }
    let ghost start = buffer@.skip(offset as int);
    assert(start == after_path.skip(zero_prefix_len(after_path) as int));
    let ghost mut taken: Seq<Seq<u8>> = Seq::empty();
    let mut remaining = argc;
    assert(leading_strings(start, argc as nat) =~= taken + leading_strings(
        buffer@.skip(offset as int),
        remaining as nat,
    ));
    while offset < n && remaining > 0
        invariant_except_break
            leading_strings(start, argc as nat) == taken + leading_strings(
                buffer@.skip(offset as int),
                remaining as nat,
            ),
            texts(args@) == decoded(taken),
            faithful(taken, texts(args@)),
        invariant
            n == buffer@.len(),
            0 <= offset <= n,
            0 <= remaining <= argc,
            nul_free_texts(texts(args@)),
        ensures
            leading_strings(start, argc as nat) == taken,
            texts(args@) == decoded(taken),
            faithful(taken, texts(args@)),
        decreases remaining,
    {
        let ghost rest = buffer@.skip(offset as int);
        let end = find_nul(buffer, offset);
        if end == offset {
            assert(leading_strings(rest, remaining as nat) =~= Seq::<Seq<u8>>::empty());
            assert(taken + Seq::<Seq<u8>>::empty() =~= taken);
            break;
        }
        let ghost piece = buffer@.subrange(offset as int, end as int);
        assert(rest.take(end - offset) =~= piece);
        let arg = decode_lossy(&buffer[offset..end]);
        proof {
            assert(taken.push(piece).drop_last() =~= taken);
            assert(texts(args@.push(arg)) =~= texts(args@).push(arg@));
            lemma_faithful_push(taken, texts(args@), piece, arg@);
            lemma_nonzero_prefix(rest);
            assert forall|j: int| 0 <= j < piece.len() implies piece[j] != 0 by {
                assert(piece[j] == rest[j]);
            }
            lemma_nul_free_push(texts(args@), arg@);
        }
        args.push(arg);
        remaining = remaining - 1;
        if end == n {
            proof {
                assert(buffer@.skip(n as int) =~= Seq::<u8>::empty());
                assert(leading_strings(Seq::<u8>::empty(), remaining as nat) =~= Seq::<
                    Seq<u8>,
                >::empty());
                assert(taken + leading_strings(rest, (remaining + 1) as nat) =~= taken.push(piece));
                taken = taken.push(piece);
            }
            break;
        }
        proof {
            lemma_skip_skip(buffer@, offset as int, end - offset + 1);
            assert(rest.skip(end - offset + 1) == buffer@.skip(end + 1));
            assert(taken + leading_strings(rest, (remaining + 1) as nat) =~= taken.push(piece)
                + leading_strings(buffer@.skip(end + 1), remaining as nat));
            taken = taken.push(piece);
        }
        offset = end + 1;
    }
    args
}

/// Parse the arguments out of a macOS `KERN_PROCARGS2` buffer, whose count
/// is stored in the machine's byte order: `little_endian` tells which.
pub fn parse_macos_procargs(buffer: &[u8], little_endian: bool) -> (r: Vec<String>)
    ensures
        texts(r@) == decoded(spec_procargs(buffer@, bytes_i32(buffer@.take(4), little_endian) as i32)),
        faithful(spec_procargs(buffer@, bytes_i32(buffer@.take(4), little_endian) as i32), texts(r@)),
{
    if buffer.len() <= 4 {
        return Vec::new();
    }
    let bytes: [u8; 4] = [buffer[0], buffer[1], buffer[2], buffer[3]];
    assert(bytes@ =~= buffer@.take(4));
    let argc = i32_from_bytes(bytes, little_endian);
    procargs_with_argc(buffer, argc)
}

/// No argument of a `cmdline` file is empty or holds a NUL byte.
pub proof fn lemma_nul_runs_hold_no_nul(s: Seq<u8>)
    ensures
        forall|k: int|
            0 <= k < nul_runs(s).len() ==> (#[trigger] nul_runs(s)[k]).len() > 0 && forall|j: int|
                0 <= j < nul_runs(s)[k].len() ==> #[trigger] nul_runs(s)[k][j] != 0,
{
    crate::text::lemma_runs_separated(s, |b: u8| b == 0);
}

proof fn lemma_leading_strings(s: Seq<u8>, count: nat)
    ensures
        leading_strings(s, count).len() <= count,
        forall|k: int|
            0 <= k < leading_strings(s, count).len() ==> (#[trigger] leading_strings(s, count)[k]).len()
                > 0 && forall|j: int|
                0 <= j < leading_strings(s, count)[k].len() ==> #[trigger] leading_strings(
                    s,
                    count,
                )[k][j] != 0,
    decreases count,
{
    let e = nonzero_prefix_len(s);
    if count == 0 || s.len() == 0 || e == 0 {
    } else {
        let rest = if e < s.len() {
            s.skip(e + 1int)
        } else {
            Seq::empty()
        };
        lemma_leading_strings(rest, (count - 1) as nat);
        lemma_nonzero_prefix(s);
        let l = leading_strings(s, count);
        let tail = leading_strings(rest, (count - 1) as nat);
        assert(l == seq![s.take(e as int)] + tail);
        assert forall|k: int| 0 <= k < l.len() implies (#[trigger] l[k]).len() > 0 && forall|j: int|
            0 <= j < l[k].len() ==> #[trigger] l[k][j] != 0 by {
            if k > 0 {
                assert(l[k] == tail[k - 1]);
            }
        }
    }
}

proof fn lemma_nonzero_prefix(s: Seq<u8>)
    ensures
        nonzero_prefix_len(s) <= s.len(),
        forall|j: int| 0 <= j < nonzero_prefix_len(s) ==> #[trigger] s[j] != 0,
    decreases s.len(),
{
    if s.len() > 0 && s[0] != 0 {
        lemma_nonzero_prefix(s.drop_first());
        assert forall|j: int| 0 <= j < nonzero_prefix_len(s) implies #[trigger] s[j] != 0 by {
            if j > 0 {
                assert(s[j] == s.drop_first()[j - 1]);
            }
        }
    }
}

/// A `KERN_PROCARGS2` buffer yields at most `argc` arguments (none for a
/// count that is not positive), so the environment that follows them never
/// leaks in; no argument is empty or holds a NUL byte.
pub proof fn lemma_procargs_bounded(buffer: Seq<u8>, argc: i32)
    ensures
        spec_procargs(buffer, argc).len() <= (if argc > 0 {
            argc as int
        } else {
            0
        }),
        forall|k: int|
            0 <= k < spec_procargs(buffer, argc).len() ==> (#[trigger] spec_procargs(buffer, argc)[k]).len()
                > 0 && forall|j: int|
                0 <= j < spec_procargs(buffer, argc)[k].len() ==> #[trigger] spec_procargs(
                    buffer,
                    argc,
                )[k][j] != 0,
{
    if buffer.len() > 4 && argc > 0 {
        let after_count = buffer.skip(4);
        let after_path = after_count.skip(nonzero_prefix_len(after_count) as int);
        let args = after_path.skip(zero_prefix_len(after_path) as int);
        lemma_leading_strings(args, argc as nat);
    }
}


// ---------------------------------------------------------------------------
// Joining arguments with NUL bytes, and splitting them again
// ---------------------------------------------------------------------------

/// Each piece followed by a NUL byte, as a `cmdline` file holds arguments.
pub open spec fn nul_joined(pieces: Seq<Seq<u8>>) -> Seq<u8>
    decreases pieces.len(),
{
    if pieces.len() == 0 {
        Seq::empty()
    } else {
        (nul_joined(pieces.drop_last()) + pieces.last()).push(0u8)
    }
}

/// The UTF-8 encoding of each text.
pub open spec fn encoded(strings: Seq<Seq<char>>) -> Seq<Seq<u8>>
    decreases strings.len(),
{
    if strings.len() == 0 {
        Seq::empty()
    } else {
        encoded(strings.drop_last()).push(encode_utf8(strings.last()))
    }
}

/// Texts that can stand as arguments: none is empty or holds a NUL.
pub open spec fn nul_free_texts(strings: Seq<Seq<char>>) -> bool {
    forall|k: int|
        0 <= k < strings.len() ==> (#[trigger] strings[k]).len() > 0 && forall|j: int|
            0 <= j < strings[k].len() ==> #[trigger] strings[k][j] != '\0'
}

/// Splitting pieces that were joined with NUL bytes gives them back, when
/// none of them is empty or holds a NUL.
pub proof fn lemma_split_joined_pieces(pieces: Seq<Seq<u8>>)
    requires
        forall|k: int|
            0 <= k < pieces.len() ==> (#[trigger] pieces[k]).len() > 0 && forall|j: int|
                0 <= j < pieces[k].len() ==> #[trigger] pieces[k][j] != 0,
    ensures
        nul_runs(nul_joined(pieces)) == pieces,
    decreases pieces.len(),
{
    if pieces.len() > 0 {
        let init = pieces.drop_last();
        let p = pieces.last();
        assert forall|k: int| 0 <= k < init.len() implies (#[trigger] init[k]).len() > 0 && forall|j: int|
            0 <= j < init[k].len() ==> #[trigger] init[k][j] != 0 by {
            assert(init[k] == pieces[k]);
        }
        lemma_split_joined_pieces(init);
        let s = nul_joined(init);
        let sep = |b: u8| b == 0;
        assert(forall|j: int| 0 <= j < p.len() ==> !sep(#[trigger] p[j])) by {
            assert(p == pieces[pieces.len() - 1]);
        }
        crate::text::lemma_runs_append_run(s, p, sep);
        crate::text::lemma_runs_push_separator(s + p, 0u8, sep);
        assert(pieces =~= init.push(p));
    }
}

proof fn lemma_scalar_bytes_nonzero(c: u32)
    requires
        c != 0,
        is_scalar(c),
    ensures
        encode_scalar(c).len() > 0,
        forall|j: int| 0 <= j < encode_scalar(c).len() ==> #[trigger] encode_scalar(c)[j] != 0,
{
    assert(c != 0 && c <= 0x7f ==> (c & 0x7f) as u8 != 0) by (bit_vector);
    assert(forall|x: u8| #[trigger] (0xC0u8 | x) != 0) by (bit_vector);
    assert(forall|x: u8| #[trigger] (0xE0u8 | x) != 0) by (bit_vector);
    assert(forall|x: u8| #[trigger] (0xF0u8 | x) != 0) by (bit_vector);
    assert(forall|x: u8| #[trigger] (0x80u8 | x) != 0) by (bit_vector);
}

/// The encoding of a non-empty text without NUL is non-empty and holds no
/// NUL byte.
proof fn lemma_encode_nonzero(chars: Seq<char>)
    requires
        forall|j: int| 0 <= j < chars.len() ==> #[trigger] chars[j] != '\0',
    ensures
        chars.len() > 0 ==> encode_utf8(chars).len() > 0,
        forall|j: int| 0 <= j < encode_utf8(chars).len() ==> #[trigger] encode_utf8(chars)[j] != 0,
    decreases chars.len(),
{
    if chars.len() > 0 {
        let rest = chars.drop_first();
        assert forall|j: int| 0 <= j < rest.len() implies #[trigger] rest[j] != '\0' by {
            assert(rest[j] == chars[j + 1]);
        }
        lemma_encode_nonzero(rest);
        let c = chars[0] as u32;
        vstd::utf8::char_is_scalar(chars[0]);
        assert(c != 0) by {
            assert(chars[0] != '\0');
            assert(('\0' as u32) == 0);
            if c == 0 {
                vstd::utf8::char_u32_cast(chars[0], c);
                vstd::utf8::char_u32_cast('\0', 0u32);
            }
        }
        lemma_scalar_bytes_nonzero(c);
        let e = encode_utf8(chars);
        let a = encode_scalar(c);
        let b = encode_utf8(rest);
        assert(e == a + b);
        assert forall|j: int| 0 <= j < e.len() implies #[trigger] e[j] != 0 by {
            if j < a.len() {
                assert(e[j] == a[j]);
            } else {
                assert(e[j] == b[j - a.len()]);
            }
        }
    }
}

proof fn lemma_encoded(strings: Seq<Seq<char>>)
    ensures
        encoded(strings).len() == strings.len(),
        forall|k: int| 0 <= k < strings.len() ==> #[trigger] encoded(strings)[k] == encode_utf8(strings[k]),
    decreases strings.len(),
{
    if strings.len() > 0 {
        lemma_encoded(strings.drop_last());
    }
}

/// Joining texts with NUL bytes and splitting the result gives each text's
/// encoding back, and each encoding is valid UTF-8 that decodes to the text:
/// a `cmdline` file written from arguments reads back as those arguments.
pub proof fn lemma_split_joined_texts(strings: Seq<Seq<char>>)
    requires
        nul_free_texts(strings),
    ensures
        nul_runs(nul_joined(encoded(strings))) == encoded(strings),
        encoded(strings).len() == strings.len(),
        forall|k: int|
            0 <= k < strings.len() ==> valid_utf8(#[trigger] encoded(strings)[k]) && decode_utf8(
                encoded(strings)[k],
            ) == strings[k],
{
    lemma_encoded(strings);
    let pieces = encoded(strings);
    assert forall|k: int| 0 <= k < pieces.len() implies (#[trigger] pieces[k]).len() > 0 && forall|j: int|
        0 <= j < pieces[k].len() ==> #[trigger] pieces[k][j] != 0 by {
        assert(strings[k].len() > 0);
        assert(forall|j: int| 0 <= j < strings[k].len() ==> #[trigger] strings[k][j] != '\0');
        lemma_encode_nonzero(strings[k]);
    }
    lemma_split_joined_pieces(pieces);
    assert forall|k: int| 0 <= k < strings.len() implies valid_utf8(#[trigger] encoded(strings)[k])
        && decode_utf8(encoded(strings)[k]) == strings[k] by {
        vstd::utf8::encode_utf8_valid_utf8(strings[k]);
        vstd::utf8::encode_utf8_decode_utf8(strings[k]);
    }
}


// ---------------------------------------------------------------------------
// What follows the counted arguments of a `KERN_PROCARGS2` buffer
// ---------------------------------------------------------------------------

proof fn lemma_nonzero_concat(s: Seq<u8>, x: Seq<u8>)
    requires
        nonzero_prefix_len(s) < s.len(),
    ensures
        nonzero_prefix_len(s + x) == nonzero_prefix_len(s),
    decreases s.len(),
{
    if s[0] != 0 {
        assert((s + x).drop_first() =~= s.drop_first() + x);
        lemma_nonzero_concat(s.drop_first(), x);
    }
}

proof fn lemma_zero_concat(s: Seq<u8>, x: Seq<u8>)
    requires
        zero_prefix_len(s) < s.len(),
    ensures
        zero_prefix_len(s + x) == zero_prefix_len(s),
    decreases s.len(),
{
    if s[0] == 0 {
        assert((s + x).drop_first() =~= s.drop_first() + x);
        lemma_zero_concat(s.drop_first(), x);
    }
}

proof fn lemma_zero_prefix_bound(s: Seq<u8>)
    ensures
        zero_prefix_len(s) <= s.len(),
    decreases s.len(),
{
    if s.len() > 0 && s[0] == 0 {
        lemma_zero_prefix_bound(s.drop_first());
    }
}

proof fn lemma_leading_strings_concat(s: Seq<u8>, x: Seq<u8>, count: nat)
    requires
        leading_strings(s, count).len() == count,
        count == 0 || (s.len() > 0 && s.last() == 0),
    ensures
        leading_strings(s + x, count) == leading_strings(s, count),
    decreases count,
{
    if count > 0 {
        let e = nonzero_prefix_len(s);
        lemma_nonzero_prefix(s);
        assert(e < s.len()) by {
            if e == s.len() {
                assert(s[s.len() - 1] != 0);
            }
        }
        lemma_nonzero_concat(s, x);
        let rest = s.skip(e + 1int);
        assert((s + x).take(e as int) =~= s.take(e as int));
        assert((s + x).skip(e + 1int) =~= rest + x);
        let tail = leading_strings(rest, (count - 1) as nat);
        assert(leading_strings(s, count) == seq![s.take(e as int)] + tail);
        assert(rest.len() > 0 ==> rest.last() == s.last());
        lemma_leading_strings_concat(rest, x, (count - 1) as nat);
    }
}

/// Bytes after the counted arguments never reach the result: once a buffer
/// holds all `argc` arguments, each terminated by its NUL, appending anything
/// (the environment, say) leaves both the count that its first four bytes
/// hold and the arguments unchanged.
pub proof fn lemma_procargs_ignore_trailing(buffer: Seq<u8>, extra: Seq<u8>, argc: i32)
    requires
        buffer.len() > 4,
        argc > 0,
        spec_procargs(buffer, argc).len() == argc,
        buffer.last() == 0,
    ensures
        (buffer + extra).take(4) == buffer.take(4),
        spec_procargs(buffer + extra, argc) == spec_procargs(buffer, argc),
{
    assert((buffer + extra).take(4) =~= buffer.take(4));
    let after_count = buffer.skip(4);
    let p = nonzero_prefix_len(after_count);
    lemma_nonzero_prefix(after_count);
    let after_path = after_count.skip(p as int);
    let z = zero_prefix_len(after_path);
    lemma_zero_prefix_bound(after_path);
    let args = after_path.skip(z as int);
    assert(args.len() > 0) by {
        if args.len() == 0 {
            assert(leading_strings(args, argc as nat).len() == 0);
        }
    }
    assert(p < after_count.len());
    assert(z < after_path.len());
    assert((buffer + extra).skip(4) =~= after_count + extra);
    lemma_nonzero_concat(after_count, extra);
    assert((after_count + extra).skip(p as int) =~= after_path + extra);
    lemma_zero_concat(after_path, extra);
    assert((after_path + extra).skip(z as int) =~= args + extra);
    assert(args.last() == buffer.last());
    lemma_leading_strings_concat(args, extra, argc as nat);
}

} // verus!
