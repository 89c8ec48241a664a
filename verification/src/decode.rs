//! A thin, string-oriented front over the bencode decoder.

use vstd::prelude::*;

use crate::bencode::Bencode;
use crate::bencode::bvalue::BValue;
use crate::bencode::decoder::BencodeError;
use crate::bencode::decoder::spec_decode;
use crate::bencode::bvalue::node_wf;
use vstd::string::StringSliceAdditionalSpecFns;

verus! {

/// Decodes one bencoded value out of a string.
#[derive(Debug)]
pub struct BencodeDecoder<'a> {
    pub input: &'a str,
}

impl<'a> BencodeDecoder<'a> {
    /// Creates a decoder over the given input.
    pub fn new(input: &'a str) -> (r: Self)
        ensures
            r.input@ == input@,
    {
        BencodeDecoder { input }
    }

    /// Parses the complete input. The result is well formed: every
    /// dictionary in it stands in ascending key order.
    pub fn parse(&self) -> (r: Result<BValue, BencodeError>)
        ensures
            match spec_decode(self.input.spec_bytes()) {
                Ok(n) => r matches Ok(v) && v@ == n,
                Err(e) => r matches Err(e2) && e2 == e,
            },
            r matches Ok(v) ==> node_wf(v@),
    {
        Bencode::decode(self.input)
    }
}

} // verus!
