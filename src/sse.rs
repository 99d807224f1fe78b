use vstd::prelude::*;

verus! {

/// The bytes `data: `.
pub open spec fn sse_prefix() -> Seq<u8> {
    seq![100u8, 97u8, 116u8, 97u8, 58u8, 32u8]
}

/// Frames `data` as one server-sent event: `data: `, the bytes, and a blank
/// line. The bytes are moved out of `data`.
pub fn format_sse_data(data: &mut Vec<u8>) -> (r: Vec<u8>)
    ensures
        r@ == sse_prefix() + old(data)@ + seq![10u8, 10u8],
        final(data)@.len() == 0,
{
    let mut prefix: Vec<u8> = vec![100u8, 97u8, 116u8, 97u8, 58u8, 32u8];
    let mut suffix: Vec<u8> = vec![10u8, 10u8];
    let ghost d = data@;
    prefix.append(data);
    prefix.append(&mut suffix);
    assert(prefix@ =~= sse_prefix() + d + seq![10u8, 10u8]);
    prefix
}

} // verus!
