use vstd::prelude::*;

verus! {

/// The last error code a FreeType call reported through the bindings; 0
/// means success.
pub struct FtErrorState {
    pub last: i32,
}

impl FtErrorState {
    /// A state in which no call has failed yet.
    pub fn new() -> (s: Self)
        ensures
            s.last == 0,
    {
        FtErrorState { last: 0 }
    }

    /// Records `code` as the last error code.
    pub fn set_error(&mut self, code: i32)
        ensures
            final(self).last == code,
    {
        self.last = code;
    }

    /// Records the result code of a FreeType call and tells whether it
    /// succeeded (code 0).
    pub fn ft_ok(&mut self, code: i32) -> (ok: bool)
        ensures
            ok == (code == 0),
            final(self).last == code,
    {
        let ok = code == 0;
        self.set_error(code);
        ok
    }

    /// The last recorded error code.
    pub fn last_error_code(&self) -> (c: i32)
        ensures
            c == self.last,
    {
        self.last
    }
}

/// How many bytes of a glyph bitmap of `rows` rows of `width` bytes are
/// copied into an output buffer of `buffer_size` bytes: the smaller of the
/// bitmap's size and the buffer's.
pub fn glyph_copy_len(rows: u32, width: u32, buffer_size: usize) -> (n: usize)
    requires
        rows * width <= u32::MAX,
    ensures
        n == if rows * width < buffer_size {
            rows * width
        } else {
            buffer_size as int
        },
{
    let src_size = (rows * width) as usize;
    if src_size < buffer_size {
        src_size
    } else {
        buffer_size
    }
}

} // verus!
