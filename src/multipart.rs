//! Framing of JPEG frames as parts of a `multipart/x-mixed-replace; boundary=frame` body.
use vstd::prelude::*;

verus! {

/// `--frame\r\nContent-Type: image/jpeg\r\n\r\n`, the bytes that open every part.
pub open spec fn part_header() -> Seq<u8> {
    seq![
        45u8, 45, 102, 114, 97, 109, 101, 13, 10, 67, 111, 110, 116, 101, 110, 116, 45, 84,
        121, 112, 101, 58, 32, 105, 109, 97, 103, 101, 47, 106, 112, 101, 103, 13, 10, 13, 10,
    ]
}

/// `\r\n\r\n`, the bytes that close every part.
pub open spec fn part_trailer() -> Seq<u8> {
    seq![13u8, 10, 13, 10]
}

/// The part that carries `jpeg`.
pub open spec fn wrapped(jpeg: Seq<u8>) -> Seq<u8> {
    part_header() + jpeg + part_trailer()
}

/// The JPEG carried by a part, if `item` is framed as one.
pub open spec fn unwrapped(item: Seq<u8>) -> Option<Seq<u8>> {
    let h = part_header().len();
    let t = part_trailer().len();
    if item.len() >= h + t && item.take(h as int) == part_header() && item.skip(
        item.len() - t,
    ) == part_trailer() {
        Some(item.subrange(h as int, item.len() - t))
    } else {
        None
    }
}

/// Appends `src` to `dst`.
pub fn extend_bytes(dst: &mut Vec<u8>, src: &[u8])
    ensures
        final(dst)@ == old(dst)@ + src@,
{
    let mut i: usize = 0;
    while i < src.len()
        invariant
            i <= src@.len(),
            dst@ == old(dst)@ + src@.take(i as int),
        decreases src@.len() - i,
    {
        dst.push(src[i]);
        i = i + 1;
        assert(src@.take(i as int) =~= src@.take(i - 1) + seq![src@[i - 1]]);
        assert(dst@ =~= old(dst)@ + src@.take(i as int));
    }
    assert(src@.take(i as int) =~= src@);
}

/// Wraps a JPEG image as one part of the multipart stream, ready to be written verbatim.
pub fn as_jpeg_stream_item(jpeg: &[u8]) -> (item: Vec<u8>)
    ensures
        item@ == wrapped(jpeg@),
{
    let header: [u8; 37] = [
        45u8, 45, 102, 114, 97, 109, 101, 13, 10, 67, 111, 110, 116, 101, 110, 116, 45, 84, 121,
        112, 101, 58, 32, 105, 109, 97, 103, 101, 47, 106, 112, 101, 103, 13, 10, 13, 10,
    ];
    let trailer: [u8; 4] = [13u8, 10, 13, 10];
    let header_bytes: &[u8] = vstd::array::array_as_slice(&header);
    let trailer_bytes: &[u8] = vstd::array::array_as_slice(&trailer);
    assert(header_bytes@ =~= part_header());
    assert(trailer_bytes@ =~= part_trailer());
    let mut item: Vec<u8> = Vec::new();
    extend_bytes(&mut item, header_bytes);
    extend_bytes(&mut item, jpeg);
    extend_bytes(&mut item, trailer_bytes);
    assert(item@ =~= wrapped(jpeg@));
    item
}

/// Extracts the JPEG from one part of the multipart stream; `None` when `item` is not
/// framed as a part.
pub fn parse_stream_item(item: &[u8]) -> (jpeg: Option<Vec<u8>>)
    ensures
        match jpeg {
            Some(j) => unwrapped(item@) == Some(j@),
            None => unwrapped(item@) is None,
        },
{
    let header: [u8; 37] = [
        45u8, 45, 102, 114, 97, 109, 101, 13, 10, 67, 111, 110, 116, 101, 110, 116, 45, 84, 121,
        112, 101, 58, 32, 105, 109, 97, 103, 101, 47, 106, 112, 101, 103, 13, 10, 13, 10,
    ];
    let trailer: [u8; 4] = [13u8, 10, 13, 10];
    assert(header@ =~= part_header());
    assert(trailer@ =~= part_trailer());
    let n = item.len();
    if n < 41 {
        return None;
    }
    let mut i: usize = 0;
    while i < 37
        invariant
            n == item@.len(),
            n >= 41,
            i <= 37,
            header@ == part_header(),
            forall|k: int| 0 <= k < i ==> item@[k] == part_header()[k],
        decreases 37 - i,
    {
        if item[i] != header[i] {
            assert(item@.take(37)[i as int] != part_header()[i as int]);
            return None;
        }
        i = i + 1;
    }
    assert(item@.take(37) =~= part_header());
    let mut j: usize = 0;
    while j < 4
        invariant
            n == item@.len(),
            n >= 41,
            j <= 4,
            trailer@ == part_trailer(),
            forall|k: int| 0 <= k < j ==> item@[n - 4 + k] == part_trailer()[k],
        decreases 4 - j,
    {
        if item[n - 4 + j] != trailer[j] {
            assert(item@.skip(n - 4)[j as int] != part_trailer()[j as int]);
            return None;
        }
        j = j + 1;
    }
    assert(item@.skip(n - 4) =~= part_trailer());
    let mut jpeg: Vec<u8> = Vec::new();
    let mut k: usize = 37;
    while k < n - 4
        invariant
            n == item@.len(),
            n >= 41,
            37 <= k <= n - 4,
            jpeg@ == item@.subrange(37, k as int),
        decreases n - 4 - k,
    {
        jpeg.push(item[k]);
        k = k + 1;
        assert(jpeg@ =~= item@.subrange(37, k as int));
    }
    Some(jpeg)
}

/// A wrapped JPEG parses back to exactly the same bytes.
pub proof fn stream_item_round_trip(jpeg: Seq<u8>)
    ensures
        unwrapped(wrapped(jpeg)) == Some(jpeg),
{
    let item = wrapped(jpeg);
    assert(item.take(37) =~= part_header());
    assert(item.skip(item.len() - 4) =~= part_trailer());
    assert(item.subrange(37, item.len() - 4) =~= jpeg);
}

} // verus!
