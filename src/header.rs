use vstd::prelude::*;

verus! {

/// The number of bytes in a volume header.
pub const HEAD_LEN: usize = 43;

/// The byte that marks little-endian size words.
pub const ENDIAN_LITTLE: u8 = 76;

/// The byte that marks big-endian size words.
pub const ENDIAN_BIG: u8 = 66;

/// The magic text that opens a volume header.
pub open spec fn format_key() -> Seq<u8> {
    // "v3d_volume_pkbitdf_encod"
    seq![
        118, 51, 100, 95, 118, 111, 108, 117, 109, 101, 95, 112,
        107, 98, 105, 116, 100, 102, 95, 101, 110, 99, 111, 100,
    ]
}

/// The value of four bytes read least significant first.
pub open spec fn u32_le_spec(b: Seq<u8>) -> int {
    b[0] + 256 * b[1] + 65536 * b[2] + 16777216 * b[3]
}

/// The value of four bytes read most significant first.
pub open spec fn u32_be_spec(b: Seq<u8>) -> int {
    b[3] + 256 * b[2] + 65536 * b[1] + 16777216 * b[0]
}

/// The offset of the first size word.
pub open spec fn sizes_at() -> int {
    27
}

/// Whether `buf` is a well-formed header.
pub open spec fn header_ok(buf: Seq<u8>) -> bool {
    &&& buf.len() == HEAD_LEN
    &&& buf.subrange(0, 24) == format_key()
    &&& (buf[24] == ENDIAN_LITTLE || buf[24] == ENDIAN_BIG)
}

/// The `j`-th size word of a well-formed header, in the byte order it declares.
pub open spec fn size_word(buf: Seq<u8>, j: int) -> int {
    let w = buf.subrange(sizes_at() + 4 * j, sizes_at() + 4 * j + 4);
    if buf[24] == ENDIAN_LITTLE {
        u32_le_spec(w)
    } else {
        u32_be_spec(w)
    }
}

/// The dimensions recorded in the header of a packed-bit volume file.
pub struct V3DPBD {
    mysz: [u32; 4],
}

fn read_u32(buf: &[u8], at: usize, little: bool) -> (r: u32)
    requires
        at + 4 <= buf@.len(),
    ensures
        little ==> r == u32_le_spec(buf@.subrange(at as int, at + 4)),
        !little ==> r == u32_be_spec(buf@.subrange(at as int, at + 4)),
{
    let b0 = buf[at] as u32;
    let b1 = buf[at + 1] as u32;
    let b2 = buf[at + 2] as u32;
    let b3 = buf[at + 3] as u32;
    if little {
        b0 + 256 * b1 + 65536 * b2 + 16777216 * b3
    } else {
        b3 + 256 * b2 + 65536 * b1 + 16777216 * b0
    }
}

impl V3DPBD {
    pub closed spec fn sizes(&self) -> Seq<u32> {
        self.mysz@
    }

    /// Reads the dimensions out of the first bytes of a volume file.
    pub fn from_header(buf: &[u8]) -> (r: Result<V3DPBD, &'static str>)
        ensures
            r is Ok <==> header_ok(buf@),
            r is Ok ==> forall|j: int| 0 <= j < 4 ==> #[trigger] r->Ok_0.sizes()[j] == size_word(buf@, j),
    {
        if buf.len() != HEAD_LEN {
            return Err("invalid v3dpbd");
        }
        let key: [u8; 24] = [
            118, 51, 100, 95, 118, 111, 108, 117, 109, 101, 95, 112, 107, 98, 105, 116, 100, 102, 95, 101, 110, 99, 111, 100,
        ];
        let mut i: usize = 0;
        while i < 24
            invariant
                buf@.len() == HEAD_LEN,
                key@ == format_key(),
                i <= 24,
                forall|j: int| 0 <= j < i ==> buf@[j] == format_key()[j],
            decreases 24 - i,
        {
            if buf[i] != key[i] {
                proof {
                    assert(buf@.subrange(0, 24)[i as int] != format_key()[i as int]);
                }
                return Err("invalid v3dpbd");
            }
            i = i + 1;
        }
        assert(buf@.subrange(0, 24) =~= format_key());
        let endian = buf[24];
        if endian != ENDIAN_LITTLE && endian != ENDIAN_BIG {
            return Err("invalid v3dpbd");
        }
        let little = endian == ENDIAN_LITTLE;
        let mysz = [
            read_u32(buf, 27, little),
            read_u32(buf, 31, little),
            read_u32(buf, 35, little),
            read_u32(buf, 39, little),
        ];
        let r = V3DPBD { mysz };
        assert forall|j: int| 0 <= j < 4 implies #[trigger] r.sizes()[j] == size_word(buf@, j) by {
            if j == 0 {} else if j == 1 {} else if j == 2 {} else {}
        }
        Ok(r)
    }

    pub fn mysz(&self) -> (r: [u32; 4])
        ensures
            r@ == self.sizes(),
    {
        self.mysz
    }
}

} // verus!
