//! Domain names: length-prefixed labels ending in a zero byte, where a name may
//! end instead in a two-byte pointer to an earlier offset of the message.
use vstd::prelude::*;

use crate::error::DecodeError;

verus! {

/// The longest label that a length byte may announce.
pub const MAX_LABEL_LEN: u8 = 63;

/// A byte whose two high bits are set opens a compression pointer.
pub open spec fn is_pointer_byte(b: u8) -> bool {
    b >= 0xC0
}

/// The 14-bit offset of the pointer at `pos`.
pub open spec fn pointer_target(buf: Seq<u8>, pos: int) -> int {
    (buf[pos] - 0xC0) * 256 + buf[pos + 1]
}

/// `r` with `prefix` put before its resolved bytes, errors passed through.
pub open spec fn prefixed(prefix: Seq<u8>, r: Result<Seq<u8>, DecodeError>) -> Result<
    Seq<u8>,
    DecodeError,
> {
    match r {
        Ok(rest) => Ok(prefix + rest),
        Err(e) => Err(e),
    }
}

/// The resolved bytes of the name read from `pos` on, where every pointer
/// met must point below its own offset and below `limit`, the target of the
/// pointer followed last (the buffer's length before any). Targets thus keep
/// decreasing, and the walk ends.
pub open spec fn walk(buf: Seq<u8>, limit: int, pos: int) -> Result<Seq<u8>, DecodeError>
    decreases limit, buf.len() - pos,
{
    if limit < 0 || pos < 0 || pos >= buf.len() {
        Err(DecodeError::UnterminatedName)
    } else if buf[pos] == 0 {
        Ok(seq![0u8])
    } else if is_pointer_byte(buf[pos]) {
        if pos + 1 >= buf.len() {
            Err(DecodeError::UnterminatedName)
        } else if pointer_target(buf, pos) >= pos || pointer_target(buf, pos) >= limit {
            Err(DecodeError::PointerCycle)
        } else {
            walk(buf, pointer_target(buf, pos), pointer_target(buf, pos))
        }
    } else if buf[pos] > MAX_LABEL_LEN || pos + 1 + buf[pos] > buf.len() {
        Err(DecodeError::InvalidLabelLength)
    } else {
        let n = buf[pos] as int;
        prefixed(seq![buf[pos]] + buf.subrange(pos + 1, pos + 1 + n), walk(buf, limit, pos + 1 + n))
    }
}

/// The resolved wire form of the name at `start`: its labels, those reached
/// through pointers included, and the zero terminator.
pub open spec fn name_at(buf: Seq<u8>, start: int) -> Result<Seq<u8>, DecodeError> {
    walk(buf, buf.len() as int, start)
}

/// The offset just past the name at `pos` in the message itself: past its
/// zero terminator, or past the first pointer, which always ends it.
pub open spec fn name_end(buf: Seq<u8>, pos: int) -> int
    decreases buf.len() - pos,
{
    if pos < 0 || pos >= buf.len() {
        pos
    } else if buf[pos] == 0 {
        pos + 1
    } else if is_pointer_byte(buf[pos]) {
        pos + 2
    } else if pos + 1 + buf[pos] >= buf.len() {
        pos + 1 + buf[pos]
    } else {
        name_end(buf, pos + 1 + buf[pos])
    }
}

/// A decoded name ends within the buffer, past its first byte.
pub proof fn lemma_walk_end_in_bounds(buf: Seq<u8>, limit: int, pos: int)
    requires
        walk(buf, limit, pos) is Ok,
    ensures
        pos < name_end(buf, pos) <= buf.len(),
    decreases buf.len() - pos,
{
    if buf[pos] != 0 && !is_pointer_byte(buf[pos]) {
        lemma_walk_end_in_bounds(buf, limit, pos + 1 + buf[pos]);
    }
}

/// `s` is labels of 1 to 63 bytes, each after its length byte, closed by a
/// zero byte: a name with no pointer in it.
pub open spec fn is_label_seq(s: Seq<u8>) -> bool
    decreases s.len(),
{
    if s.len() == 0 {
        false
    } else if s[0] == 0 {
        s.len() == 1
    } else if s[0] > MAX_LABEL_LEN || 1 + s[0] > s.len() {
        false
    } else {
        is_label_seq(s.subrange(1 + s[0], s.len() as int))
    }
}

/// A decoded name holds no pointer: every pointer met on the way is resolved,
/// and what comes out is a plain sequence of labels.
pub proof fn lemma_decoded_name_is_label_seq(buf: Seq<u8>, limit: int, pos: int)
    requires
        walk(buf, limit, pos) is Ok,
    ensures
        is_label_seq(walk(buf, limit, pos)->Ok_0),
    decreases limit, buf.len() - pos,
{
    if buf[pos] == 0 {
    } else if is_pointer_byte(buf[pos]) {
        lemma_decoded_name_is_label_seq(buf, pointer_target(buf, pos), pointer_target(buf, pos));
    } else {
        let n = buf[pos] as int;
        lemma_decoded_name_is_label_seq(buf, limit, pos + 1 + n);
        let out = walk(buf, limit, pos)->Ok_0;
        assert(out.subrange(1 + n, out.len() as int) =~= walk(buf, limit, pos + 1 + n)->Ok_0);
    }
}

/// `s` is labels of 1 to 63 bytes, each after its length byte, with no
/// terminator: the part of a name before a pointer.
pub open spec fn is_label_run(s: Seq<u8>) -> bool
    decreases s.len(),
{
    if s.len() == 0 {
        true
    } else if s[0] == 0 || s[0] > MAX_LABEL_LEN || 1 + s[0] > s.len() {
        false
    } else {
        is_label_run(s.subrange(1 + s[0], s.len() as int))
    }
}

/// Labels are copied as they stand: where the bytes at `pos` are a run of
/// labels `s`, the name read from `pos` is `s` followed by the name read after
/// them, and both end at the same offset.
pub proof fn lemma_label_run_then(buf: Seq<u8>, limit: int, pos: int, s: Seq<u8>)
    requires
        0 <= limit,
        0 <= pos,
        pos + s.len() <= buf.len(),
        buf.subrange(pos, pos + s.len()) == s,
        is_label_run(s),
    ensures
        walk(buf, limit, pos) == prefixed(s, walk(buf, limit, pos + s.len())),
        name_end(buf, pos) == name_end(buf, pos + s.len()),
    decreases s.len(),
{
    if s.len() == 0 {
        assert(s =~= Seq::<u8>::empty());
        if let Ok(r) = walk(buf, limit, pos) {
            assert(s + r =~= r);
        }
    } else {
        assert(buf[pos] == s[0]);
        let n = s[0] as int;
        let rest = s.subrange(1 + n, s.len() as int);
        assert(buf.subrange(pos + 1 + n, pos + 1 + n + rest.len()) =~= rest);
        lemma_label_run_then(buf, limit, pos + 1 + n, rest);
        let label = seq![s[0]] + buf.subrange(pos + 1, pos + 1 + n);
        assert(s =~= label + rest);
        if let Ok(r) = walk(buf, limit, pos + s.len()) {
            assert(label + (rest + r) =~= s + r);
        }
    }
}

/// An uncompressed name decodes to itself: where the bytes at `pos` are a
/// plain sequence of labels `s`, the name there is `s` and ends right after it.
pub proof fn lemma_plain_name_decodes_to_itself(buf: Seq<u8>, limit: int, pos: int, s: Seq<u8>)
    requires
        0 <= limit,
        0 <= pos,
        pos + s.len() <= buf.len(),
        buf.subrange(pos, pos + s.len()) == s,
        is_label_seq(s),
    ensures
        walk(buf, limit, pos) == Ok::<Seq<u8>, DecodeError>(s),
        name_end(buf, pos) == pos + s.len(),
    decreases s.len(),
{
    assert(buf[pos] == s[0]);
    if s[0] != 0 {
        let n = s[0] as int;
        let rest = s.subrange(1 + n, s.len() as int);
        assert(buf.subrange(pos + 1 + n, pos + 1 + n + rest.len()) =~= rest);
        lemma_plain_name_decodes_to_itself(buf, limit, pos + 1 + n, rest);
        assert(s =~= seq![s[0]] + buf.subrange(pos + 1, pos + 1 + n) + rest);
    } else {
        assert(s =~= seq![0u8]);
    }
}

/// Copies `buf[from .. from + n]` onto the end of `out`.
fn push_range(out: &mut Vec<u8>, buf: &[u8], from: usize, n: usize)
    requires
        from + n <= buf.len(),
    ensures
        final(out)@ == old(out)@ + buf@.subrange(from as int, from + n),
{
    let ghost start = out@;
    let mut j: usize = 0;
    while j < n
        invariant
            j <= n,
            from + n <= buf.len(),
            out@ == start + buf@.subrange(from as int, from + j),
        decreases n - j,
    {
        out.push(buf[from + j]);
        j = j + 1;
        assert(out@ =~= start + buf@.subrange(from as int, from + j));
    }
}

/// Decodes the name at `start`, following compression pointers. Returns its
/// resolved wire form and the offset just past the name in the message.
pub fn decode_name(buf: &[u8], start: usize) -> (r: Result<(Vec<u8>, usize), DecodeError>)
    ensures
        r is Ok ==> name_at(buf@, start as int) == Ok::<Seq<u8>, DecodeError>(r->Ok_0.0@)
            && r->Ok_0.1 == name_end(buf@, start as int),
        r is Err ==> name_at(buf@, start as int) == Err::<Seq<u8>, DecodeError>(r->Err_0),
{
    if start >= buf.len() {
        return Err(DecodeError::UnterminatedName);
    }
    let mut out: Vec<u8> = Vec::new();
    let mut limit: usize = buf.len();
    let mut pos: usize = start;
    let mut end: usize = 0;
    let mut jumped = false;
    loop
        invariant
            pos <= buf@.len(),
            limit <= buf@.len(),
            name_at(buf@, start as int) == prefixed(out@, walk(buf@, limit as int, pos as int)),
            !jumped ==> limit == buf@.len() && name_end(buf@, start as int) == name_end(
                buf@,
                pos as int,
            ),
            jumped ==> name_end(buf@, start as int) == end,
        decreases limit, buf@.len() - pos,
    {
        if pos >= buf.len() {
            return Err(DecodeError::UnterminatedName);
        }
        let b = buf[pos];
        if b == 0 {
            let ghost before = out@;
            out.push(0);
            if !jumped {
                end = pos + 1;
            }
            assert(out@ =~= before + seq![0u8]);
            return Ok((out, end));
        }
        if b >= 0xC0 {
            if pos + 1 >= buf.len() {
                return Err(DecodeError::UnterminatedName);
            }
            let target: usize = ((b - 0xC0) as usize) * 256 + buf[pos + 1] as usize;
            if target >= pos || target >= limit {
                return Err(DecodeError::PointerCycle);
            }
            if !jumped {
                end = pos + 2;
                jumped = true;
            }
            limit = target;
            pos = target;
        } else if b > MAX_LABEL_LEN || b as usize > buf.len() - pos - 1 {
            return Err(DecodeError::InvalidLabelLength);
        } else {
            let n = b as usize;
            let ghost before = out@;
            out.push(b);
            push_range(&mut out, buf, pos + 1, n);
            let ghost label = seq![b] + buf@.subrange(pos + 1, pos + 1 + n);
            assert(out@ =~= before + label);
            proof {
                if let Ok(rest) = walk(buf@, limit as int, pos + 1 + n) {
                    assert(before + (label + rest) =~= out@ + rest);
                }
            }
            pos = pos + 1 + n;
        }
    }
}

/// A pointer makes a name resolve to the name at its target: a name at `n`
/// that is a pointer to an earlier offset `t` decodes as the name at `t` does
/// when pointers there must stay below `t`, and ends two bytes after `n`. In
/// particular, where the name at `t` is uncompressed, both names decode to the
/// same labels.
pub proof fn lemma_pointer_resolves_to_target(buf: Seq<u8>, n: int, t: int)
    requires
        0 <= t < n,
        n + 1 < buf.len(),
        is_pointer_byte(buf[n]),
        pointer_target(buf, n) == t,
    ensures
        name_at(buf, n) == walk(buf, t, t),
        name_end(buf, n) == n + 2,
        forall|s: Seq<u8>|
            #![trigger is_label_seq(s), buf.subrange(t, t + s.len())]
            is_label_seq(s) && t + s.len() <= buf.len() && buf.subrange(t, t + s.len()) == s
                ==> name_at(buf, n) == Ok::<Seq<u8>, DecodeError>(s) && name_at(buf, t) == Ok::<
                Seq<u8>,
                DecodeError,
            >(s),
{
    assert forall|s: Seq<u8>|
        #![trigger is_label_seq(s), buf.subrange(t, t + s.len())]
        is_label_seq(s) && t + s.len() <= buf.len() && buf.subrange(t, t + s.len()) == s
            implies name_at(buf, n) == Ok::<Seq<u8>, DecodeError>(s) && name_at(buf, t) == Ok::<
            Seq<u8>,
            DecodeError,
        >(s) by {
        lemma_plain_name_decodes_to_itself(buf, t, t, s);
        lemma_plain_name_decodes_to_itself(buf, buf.len() as int, t, s);
    }
}

/// A pointer at offset `n` whose target is `n` or later is rejected as a
/// cycle, wherever the walk that meets it started.
pub proof fn lemma_forward_pointer_rejected(buf: Seq<u8>, limit: int, n: int)
    requires
        0 <= limit,
        0 <= n,
        n + 1 < buf.len(),
        is_pointer_byte(buf[n]),
        pointer_target(buf, n) >= n,
    ensures
        walk(buf, limit, n) == Err::<Seq<u8>, DecodeError>(DecodeError::PointerCycle),
        name_at(buf, n) == Err::<Seq<u8>, DecodeError>(DecodeError::PointerCycle),
{
}

} // verus!
