//! Canonical byte encodings.
//!
//! A value type joins the pool by giving each value a stable canonical
//! encoding: two equal values must always encode identically, since the
//! encoding's digest decides which stored copy a value shares.

use vstd::prelude::*;
use vstd::string::StrSliceExecFns;
use vstd::utf8::encode_utf8;

verus! {

/// A value with a stable canonical byte encoding.
///
/// An implementation overrides `canon` together with
/// `canonical_bytes`, so that the two agree; `canon` carries a default
/// body only so that implementations outside this crate, which Verus
/// never checks, need not spell out ghost code.
pub trait CanonicalSource: Sized {
    /// The canonical encoding, as mathematical bytes.
    open spec fn canon(&self) -> Seq<u8> {
        Seq::empty()
    }

    /// Produce the canonical encoding.
    fn canonical_bytes(&self) -> (r: Vec<u8>)
        ensures
            r@ == self.canon(),
    ;
}

/// A borrowed view of some `T`'s content: enough to compute the same
/// canonical encoding, and to build an owned `T` only when the pool
/// holds no copy yet.
pub trait CanonicalView<T: CanonicalSource>: Sized + Copy {
    /// The canonical encoding of the viewed content.
    open spec fn view_canon(self) -> Seq<u8> {
        Seq::empty()
    }

    /// Produce the canonical encoding of the viewed content.
    fn view_bytes(self) -> (r: Vec<u8>)
        ensures
            r@ == self.view_canon(),
    ;

    /// Materialize an owned value with the same canonical encoding.
    fn to_owned_value(self) -> (r: T)
        ensures
            r.canon() == self.view_canon(),
    ;
}

impl CanonicalSource for String {
    open spec fn canon(&self) -> Seq<u8> {
        encode_utf8(self@)
    }

    fn canonical_bytes(&self) -> (r: Vec<u8>) {
        self.as_str().as_bytes_vec()
    }
}

impl CanonicalSource for Vec<u8> {
    open spec fn canon(&self) -> Seq<u8> {
        self@
    }

    fn canonical_bytes(&self) -> (r: Vec<u8>) {
        vstd::slice::slice_to_vec(self.as_slice())
    }
}

impl<'a> CanonicalView<String> for &'a str {
    open spec fn view_canon(self) -> Seq<u8> {
        encode_utf8(self@)
    }

    fn view_bytes(self) -> (r: Vec<u8>) {
        self.as_bytes_vec()
    }

    fn to_owned_value(self) -> (r: String) {
        self.to_owned()
    }
}

impl<'a> CanonicalView<Vec<u8>> for &'a [u8] {
    open spec fn view_canon(self) -> Seq<u8> {
        self@
    }

    fn view_bytes(self) -> (r: Vec<u8>) {
        vstd::slice::slice_to_vec(self)
    }

    fn to_owned_value(self) -> (r: Vec<u8>) {
        vstd::slice::slice_to_vec(self)
    }
}

} // verus!
