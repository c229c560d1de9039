use vstd::prelude::*;

use crate::bytearray::ByteArray;
use crate::server::{spec_registry_frame, Server};

verus! {

/// The pixel words of the captcha image, one word per blue-channel byte.
pub open spec fn spec_pixel_words(pixels: Seq<u8>) -> Seq<u8>
    decreases pixels.len(),
{
    if pixels.len() == 0 {
        Seq::empty()
    } else {
        spec_pixel_words(pixels.drop_last()) + crate::bytearray::u32_be(pixels.last() as u32)
    }
}

/// The uncompressed captcha packet: a marker, the dimensions, the pixel
/// count, then the pixel words.
pub open spec fn spec_pixel_packet(width: u16, height: u16, pixels: Seq<u8>) -> Seq<u8> {
    seq![0u8] + crate::bytearray::u16_be(width) + crate::bytearray::u16_be(height)
        + crate::bytearray::u16_be(((width * height) as u16)) + spec_pixel_words(pixels)
}

/// Sends a rendered captcha to the session: the caller draws the code with
/// its rendering collaborator and hands in the blue-channel pixel values,
/// row-major; this builds the pixel packet, compresses it, and frames it.
pub fn deliver(server: &mut Server, conn: u64, width: u16, height: u16, pixels: &Vec<u8>)
    requires
        old(server).wf(),
        pixels@.len() == width * height,
    ensures
        final(server).wf(),
        spec_registry_frame(*old(server), *final(server)),
        forall|j: int|
            crate::utils::zlib_of(spec_pixel_packet(width, height, pixels@)).len() < 0xfffffff0
                && 0 <= j < old(server).clients@.len() && (#[trigger] old(server).clients@[j]).conn == conn && !old(server).clients@[j].is_closed ==> final(server).clients@[j].queue() == old(server).clients@[j].queue().push(
                crate::framer::spec_frame(
                    crate::tokens::CAPTCHA.0,
                    crate::tokens::CAPTCHA.1,
                    crate::bytearray::u32_be(
                        crate::utils::zlib_of(
                            spec_pixel_packet(width, height, pixels@),
                        ).len() as u32,
                    ) + crate::utils::zlib_of(spec_pixel_packet(width, height, pixels@)),
                ),
            ),
{
    proof {
        assert((width as u32) * (height as u32) <= 0xfffe0001) by (nonlinear_arith)
            requires
                width <= 0xffff && height <= 0xffff,
        ;
    }
    let mut p = ByteArray::new().write_u8(0).write_u16(width).write_u16(height).write_u16(
        #[verifier::truncate] (((width as u32) * (height as u32)) as u16),
    );
    proof {
        assert(pixels@.take(0) =~= Seq::<u8>::empty());
        assert(p@ =~= seq![0u8] + crate::bytearray::u16_be(width) + crate::bytearray::u16_be(
            height,
        ) + crate::bytearray::u16_be(((width * height) as u16)) + spec_pixel_words(
            pixels@.take(0),
        ));
    }
    let mut i: usize = 0;
    while i < pixels.len()
        invariant
            i <= pixels@.len(),
            pixels@.len() <= 0xffffffff,
            p@ == seq![0u8] + crate::bytearray::u16_be(width) + crate::bytearray::u16_be(height)
                + crate::bytearray::u16_be(((width * height) as u16)) + spec_pixel_words(
                pixels@.take(i as int),
            ),
        decreases pixels@.len() - i,
    {
        let ghost pre = pixels@.take(i as int);
        proof {
            assert(pixels@.take(i + 1) =~= pre.push(pixels@[i as int]));
            assert(pre.push(pixels@[i as int]).drop_last() =~= pre);
        }
        p = p.write_u32(pixels[i] as u32);
        proof {
            assert(p@ =~= seq![0u8] + crate::bytearray::u16_be(width)
                + crate::bytearray::u16_be(height) + crate::bytearray::u16_be(
                ((width * height) as u16),
            ) + spec_pixel_words(pixels@.take(i + 1)));
        }
        i = i + 1;
    }
    proof {
        assert(pixels@.take(pixels@.len() as int) =~= pixels@);
    }
    let encoded = crate::utils::deflate_bytes(p.as_bytes());
    if encoded.len() >= 0xfffffff0 {
        return ;
    }
    let b = ByteArray::new().write_u32(encoded.len() as u32).write_bytes(encoded.as_slice());
    proof {
        assert(b@ =~= crate::bytearray::u32_be(
            crate::utils::zlib_of(spec_pixel_packet(width, height, pixels@)).len() as u32,
        ) + crate::utils::zlib_of(spec_pixel_packet(width, height, pixels@)));
    }
    crate::server::send_to_conn(server, conn, crate::tokens::CAPTCHA, b);
}

} // verus!
