use vstd::prelude::*;
use vstd::string::StringSliceAdditionalSpecFns;
use vstd::utf8::{
    length_of_first_codepoint, length_of_first_scalar, pop_first_scalar, valid_first_scalar,
    valid_utf8,
};

verus! {

/// A string with local, fixed-size storage: at most `N` bytes of valid
/// UTF-8, where `N` is at most 255. It is immutable and `Copy`.
#[derive(Clone, Copy, Debug, Eq, Hash, PartialEq)]
pub struct LStr<const N: usize> {
    len: u8,
    buf: [u8; N],
}

/// Why a byte slice could not become an [`LStr`].
#[derive(Clone, Copy, Debug, Eq, PartialEq)]
pub enum LStrError {
    /// The bytes are not valid UTF-8; `valid_up_to` is the length of the
    /// longest valid prefix that ends on a character boundary.
    NotUtf8 { valid_up_to: usize },
    /// The bytes do not fit into the buffer.
    TooLong { len: usize },
}

impl<const N: usize> View for LStr<N> {
    type V = Seq<u8>;

    closed spec fn view(&self) -> Seq<u8> {
        self.buf@.take(self.len as int)
    }
}

impl<const N: usize> LStr<N> {
    /// The stored length never exceeds the buffer.
    pub closed spec fn wf(&self) -> bool {
        self.len as int <= N
    }

    /// True when the string holds zero bytes.
    pub fn is_empty(&self) -> (r: bool)
        requires
            self.wf(),
        ensures
            r == (self@.len() == 0),
    {
        self.len == 0
    }

    /// The length in bytes.
    pub fn len(&self) -> (r: usize)
        requires
            self.wf(),
        ensures
            r == self@.len(),
    {
        self.len as usize
    }

    /// The contents as a byte slice.
    pub fn as_bytes(&self) -> (r: &[u8])
        requires
            self.wf(),
        ensures
            r@ == self@,
    {
        broadcast use vstd::array::group_array_axioms;

        vstd::slice::slice_subrange(self.buf.as_slice(), 0, self.len as usize)
    }

    /// Convert a byte slice: the bytes must fit in `N` and be valid UTF-8.
    /// Exactly the overlong inputs give `TooLong`, and exactly the inputs
    /// that are not valid UTF-8 give `NotUtf8`.
    pub fn try_from_uf8(bytes: &[u8]) -> (r: Result<Self, LStrError>)
        requires
            N <= 255,
        ensures
            match r {
                Ok(s) => s@ == bytes@ && s.wf() && bytes@.len() <= N && valid_utf8(bytes@),
                Err(e) => match e {
                    LStrError::TooLong { len } => len == bytes@.len() && bytes@.len() > N,
                    LStrError::NotUtf8 { valid_up_to } => bytes@.len() <= N && !valid_utf8(bytes@)
                        && valid_utf8(bytes@.take(valid_up_to as int)) && valid_up_to < bytes@.len()
                        && !vstd::utf8::valid_first_scalar(bytes@.skip(valid_up_to as int)),
                },
            },
    {
        broadcast use vstd::array::group_array_axioms;

        let len = bytes.len();
        if len > N {
            return Err(LStrError::TooLong { len });
        }
        let valid_up_to = crate::pretty::utf8_valid_prefix(bytes);
        if valid_up_to < len {
            proof {
                assert(!valid_utf8(bytes@)) by {
                    if valid_utf8(bytes@) {
                        crate::lstr::lemma_valid_utf8_suffix(bytes@, valid_up_to as int);
                    }
                }
            }
            return Err(LStrError::NotUtf8 { valid_up_to });
        }
        let mut buf: [u8; N] = [0u8; N];
        let mut i: usize = 0;
        while i < len
            invariant
                len == bytes@.len() <= N,
                i <= len,
                buf@.len() == N,
                forall|j: int| 0 <= j < i ==> buf@[j] == bytes@[j],
            decreases len - i,
        {
            broadcast use vstd::array::group_array_axioms;

            buf[i] = bytes[i];
            i = i + 1;
        }
        proof {
            assert(buf@.take(len as int) =~= bytes@);
            assert(bytes@.take(len as int) =~= bytes@);
        }
        Ok(LStr { len: len as u8, buf })
    }

    /// Convert a string slice: its UTF-8 bytes must fit in `N`.
    pub fn try_from_str(s: &str) -> (r: Result<Self, LStrError>)
        requires
            N <= 255,
        ensures
            match r {
                Ok(ls) => ls@ == s.spec_bytes() && ls.wf() && s.spec_bytes().len() <= N,
                Err(e) => e matches LStrError::TooLong { len } && len == s.spec_bytes().len()
                    && s.spec_bytes().len() > N,
            },
    {
        proof {
            vstd::utf8::encode_utf8_valid_utf8(s@);
        }
        Self::try_from_uf8(s.as_bytes())
    }
}

/// Where a proper prefix of a valid UTF-8 sequence is itself valid, the
/// prefix ends on a scalar boundary, so a well-formed scalar starts at the
/// cut.
pub proof fn lemma_valid_utf8_suffix(s: Seq<u8>, i: int)
    requires
        0 <= i < s.len(),
        valid_utf8(s),
        valid_utf8(s.take(i)),
    ensures
        valid_first_scalar(s.skip(i)),
    decreases s.len(),
{
    if i == 0 {
        assert(s.skip(0) =~= s);
    } else {
        let ghost l = length_of_first_scalar(s);
        let ghost ti = s.take(i);
        assert(valid_first_scalar(ti));
        assert(ti[0] == s[0]);
        assert(1 <= l <= 4);
        assert(length_of_first_codepoint(ti) == length_of_first_codepoint(s));
        assert(i >= l);
        assert(forall|j: int| 0 <= j < l ==> ti[j] == s[j]);
        assert(length_of_first_scalar(ti) == l);
        assert(pop_first_scalar(ti) =~= pop_first_scalar(s).take(i - l));
        assert(s.skip(i) =~= pop_first_scalar(s).skip(i - l));
        lemma_valid_utf8_suffix(pop_first_scalar(s), i - l);
    }
}

} // verus!
