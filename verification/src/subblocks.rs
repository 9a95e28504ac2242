//! The GIF sub-block framing layer.
//!
//! Variable-length payloads (extension texts, application data, compressed
//! image data) travel as a chain of chunks of at most 255 bytes, each chunk
//! prefixed by its length, the whole chain closed by a single zero length
//! byte.

use vstd::prelude::*;

verus! {

/// Byte position just past the sub-block chain that starts at `pos`, or
/// `None` when the chain is truncated or `pos` is out of range.
pub open spec fn sub_blocks_end(s: Seq<u8>, pos: int) -> Option<int>
    decreases s.len() - pos,
{
    if pos < 0 || pos >= s.len() {
        None
    } else if s[pos] == 0 {
        Some(pos + 1)
    } else if pos + 1 + s[pos] > s.len() {
        None
    } else {
        sub_blocks_end(s, pos + 1 + s[pos])
    }
}

/// Concatenation of the chunk payloads of the sub-block chain at `pos`.
pub open spec fn sub_blocks_data(s: Seq<u8>, pos: int) -> Seq<u8>
    decreases s.len() - pos,
{
    if pos < 0 || pos >= s.len() || s[pos] == 0 || pos + 1 + s[pos] > s.len() {
        Seq::<u8>::empty()
    } else {
        s.subrange(pos + 1, pos + 1 + s[pos]) + sub_blocks_data(s, pos + 1 + s[pos])
    }
}

/// The chunks that carry `data`: length prefixes and payloads, without the
/// closing zero byte. Every chunk but possibly the last is 255 bytes long.
pub open spec fn sub_block_body(data: Seq<u8>) -> Seq<u8>
    decreases data.len(),
{
    if data.len() == 0 {
        Seq::<u8>::empty()
    } else if data.len() <= 255 {
        seq![data.len() as u8] + data
    } else {
        seq![255u8] + data.take(255) + sub_block_body(data.skip(255))
    }
}

/// The complete chain that carries `data`, closed by the zero length byte.
pub open spec fn sub_block_chain(data: Seq<u8>) -> Seq<u8> {
    sub_block_body(data) + seq![0u8]
}

/// A sub-block chain ends with exactly one zero length byte.
pub proof fn lemma_sub_block_chain_terminated(data: Seq<u8>)
    ensures
        sub_block_chain(data).len() > 0,
        sub_block_chain(data).last() == 0u8,
{
}

/// Law: the chain written for `data` reads back as `data`, wherever it is
/// embedded. Every length prefix equals the byte count that follows it, so
/// the reader ends exactly at the zero byte that closes the chain.
pub proof fn lemma_sub_block_chain_parses(s: Seq<u8>, pos: int, data: Seq<u8>)
    requires
        0 <= pos,
        pos + sub_block_chain(data).len() <= s.len(),
        s.subrange(pos, pos + sub_block_chain(data).len() as int) == sub_block_chain(data),
    ensures
        sub_blocks_end(s, pos) == Some(pos + sub_block_chain(data).len() as int),
        sub_blocks_data(s, pos) == data,
    decreases data.len(),
{
    let chain = sub_block_chain(data);
    if data.len() == 0 {
        assert(s[pos] == chain[0]);
        assert(chain[0] == 0u8);
        assert(sub_blocks_data(s, pos) =~= data);
    } else if data.len() <= 255 {
        let n = data.len() as int;
        assert(chain =~= seq![data.len() as u8] + data + seq![0u8]);
        assert(s.subrange(pos, pos + chain.len() as int)[0] == chain[0]);
        assert(s[pos] == data.len() as u8);
        assert(s[pos] as int == n);
        assert(pos + 1 + n <= s.len());
        assert(s.subrange(pos, pos + chain.len() as int)[n + 1] == chain[n + 1]);
        assert(s[pos + 1 + n] == 0u8);
        assert(sub_blocks_end(s, pos + 1 + n) == Some(pos + n + 2));
        assert(sub_blocks_data(s, pos + 1 + n) =~= Seq::<u8>::empty());
        assert forall|k: int| 0 <= k < n implies s.subrange(pos + 1, pos + 1 + n)[k] == data[k] by {
            assert(s.subrange(pos, pos + chain.len() as int)[k + 1] == chain[k + 1]);
            assert(s[pos + 1 + k] == chain[1 + k]);
            assert(chain[1 + k] == data[k]);
        }
        assert(s.subrange(pos + 1, pos + 1 + n) =~= data);
        assert(sub_blocks_data(s, pos) =~= data);
    } else {
        let rest = data.skip(255);
        let rest_chain = sub_block_chain(rest);
        assert(chain =~= seq![255u8] + data.take(255) + rest_chain);
        assert(s.subrange(pos, pos + chain.len() as int)[0] == chain[0]);
        assert(s[pos] == 255u8);
        assert forall|k: int| 0 <= k < rest_chain.len() implies s.subrange(
            pos + 256,
            pos + 256 + rest_chain.len() as int,
        )[k] == rest_chain[k] by {
            assert(s.subrange(pos, pos + chain.len() as int)[k + 256] == chain[k + 256]);
            assert(s[pos + 256 + k] == chain[256 + k]);
            assert(chain[256 + k] == rest_chain[k]);
        }
        assert(s.subrange(pos + 256, pos + 256 + rest_chain.len() as int) =~= rest_chain);
        lemma_sub_block_chain_parses(s, pos + 256, rest);
        assert(sub_blocks_end(s, pos) == Some(pos + chain.len() as int));
        assert forall|k: int| 0 <= k < 255 implies s.subrange(pos + 1, pos + 256)[k]
            == data.take(255)[k] by {
            assert(s.subrange(pos, pos + chain.len() as int)[k + 1] == chain[k + 1]);
            assert(s[pos + 1 + k] == chain[1 + k]);
            assert(chain[1 + k] == data.take(255)[k]);
        }
        assert(s.subrange(pos + 1, pos + 256) =~= data.take(255));
        assert(sub_blocks_data(s, pos) =~= data.take(255) + rest);
        assert(data.take(255) + rest =~= data);
    }
}

/// Read the sub-block chain that starts at `start`, returning the position
/// just past its zero terminator and the concatenated payload bytes.
pub fn read_sub_blocks(input: &[u8], start: usize) -> (r: Option<(usize, Vec<u8>)>)
    requires
        start <= input@.len(),
    ensures
        match r {
            Some(v) => {
                &&& sub_blocks_end(input@, start as int) == Some(v.0 as int)
                &&& v.1@ == sub_blocks_data(input@, start as int)
                &&& start < v.0 <= input@.len()
            },
            None => sub_blocks_end(input@, start as int) is None,
        },
{
    let mut pos: usize = start;
    let mut data: Vec<u8> = Vec::new();
    loop
        invariant
            start <= pos <= input@.len(),
            sub_blocks_end(input@, start as int) == sub_blocks_end(input@, pos as int),
            sub_blocks_data(input@, start as int) == data@ + sub_blocks_data(
                input@,
                pos as int,
            ),
        decreases input@.len() - pos,
    {
        if pos >= input.len() {
            return None;
        }
        let len_byte = input[pos];
        if len_byte == 0 {
            assert(data@ =~= data@ + sub_blocks_data(input@, pos as int));
            return Some((pos + 1, data));
        }
        let avail = input.len() - pos - 1;
        if (len_byte as usize) > avail {
            return None;
        }
        let block_end = pos + 1 + len_byte as usize;
        let ghost data_before = data@;
        let mut i: usize = pos + 1;
        while i < block_end
            invariant
                pos + 1 <= i <= block_end,
                block_end <= input@.len(),
                data@ == data_before + input@.subrange(pos + 1, i as int),
            decreases block_end - i,
        {
            data.push(input[i]);
            assert(data@ =~= data_before + input@.subrange(pos + 1, i + 1));
            i = i + 1;
        }
        proof {
            assert(sub_blocks_data(input@, pos as int) == input@.subrange(
                pos + 1,
                block_end as int,
            ) + sub_blocks_data(input@, block_end as int));
            assert(data_before + sub_blocks_data(input@, pos as int) =~= data@
                + sub_blocks_data(input@, block_end as int));
        }
        pos = block_end;
    }
}

/// Append the sub-block chain that carries `data` to `out`.
pub fn append_sub_block_chain(out: &mut Vec<u8>, data: &Vec<u8>)
    ensures
        final(out)@ == old(out)@ + sub_block_chain(data@),
{
    let ghost out0 = old(out)@;
    proof {
        assert(data@.skip(0) =~= data@);
    }
    let mut i: usize = 0;
    while i < data.len()
        invariant
            i <= data@.len(),
            out@ + sub_block_body(data@.skip(i as int)) == out0 + sub_block_body(data@),
        decreases data@.len() - i,
    {
        let remaining = data.len() - i;
        let chunk: usize = if remaining > 255 {
            255
        } else {
            remaining
        };
        let ghost mid0 = out@;
        let ghost tail = data@.skip(i as int);
        out.push(chunk as u8);
        let block_end = i + chunk;
        let ghost mid1 = out@;
        let mut j: usize = i;
        while j < block_end
            invariant
                i <= j <= block_end,
                block_end <= data@.len(),
                out@ == mid1 + data@.subrange(i as int, j as int),
            decreases block_end - j,
        {
            out.push(data[j]);
            assert(out@ =~= mid1 + data@.subrange(i as int, j + 1));
            j = j + 1;
        }
        proof {
            if remaining > 255 {
                assert(sub_block_body(tail) == seq![255u8] + tail.take(255) + sub_block_body(
                    tail.skip(255),
                ));
                assert(tail.take(255) =~= data@.subrange(i as int, i + 255));
                assert(tail.skip(255) =~= data@.skip(i + 255));
                assert(out@ + sub_block_body(data@.skip(block_end as int)) =~= mid0
                    + sub_block_body(tail));
            } else {
                assert(sub_block_body(tail) == seq![chunk as u8] + tail);
                assert(tail =~= data@.subrange(i as int, block_end as int));
                assert(data@.skip(block_end as int) =~= Seq::<u8>::empty());
                assert(sub_block_body(data@.skip(block_end as int)) =~= Seq::<u8>::empty());
                assert(out@ + sub_block_body(data@.skip(block_end as int)) =~= mid0
                    + sub_block_body(tail));
            }
        }
        i = block_end;
    }
    assert(sub_block_body(data@.skip(i as int)) =~= Seq::<u8>::empty());
    out.push(0);
    assert(out@ =~= out0 + sub_block_chain(data@));
}

} // verus!
