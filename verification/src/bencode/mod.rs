//! Bencode, the BitTorrent data-interchange format: four value kinds over raw
//! bytes, canonical on re-encode.

pub mod bvalue;
pub mod decoder;
pub mod encoder;

use vstd::prelude::*;

use crate::bencode::bvalue::BValue;
use crate::bencode::bvalue::node_wf;
use crate::bencode::decoder::BencodeError;
use crate::bencode::decoder::Decoder;
use crate::bencode::decoder::spec_decode;
use vstd::string::StringSliceAdditionalSpecFns;

verus! {

/// Facade over the bencode decoder and encoder.
#[derive(Debug, Clone, Copy)]
pub struct Bencode;

impl Bencode {
    /// Decodes one complete bencoded value from a string. The result is
    /// well formed: every dictionary in it stands in ascending key order.
    pub fn decode(input: &str) -> (r: Result<BValue, BencodeError>)
        ensures
            match spec_decode(input.spec_bytes()) {
                Ok(n) => r matches Ok(v) && v@ == n,
                Err(e) => r matches Err(e2) && e2 == e,
            },
            r matches Ok(v) ==> node_wf(v@),
    {
        let mut decoder = Decoder::new(input);
        decoder.parse()
    }

    /// Decodes one complete bencoded value from raw bytes. The result is
    /// well formed: every dictionary in it stands in ascending key order.
    pub fn decode_bytes(input: &[u8]) -> (r: Result<BValue, BencodeError>)
        ensures
            match spec_decode(input@) {
                Ok(n) => r matches Ok(v) && v@ == n,
                Err(e) => r matches Err(e2) && e2 == e,
            },
            r matches Ok(v) ==> node_wf(v@),
    {
        let mut decoder = Decoder::new_from_bytes(input);
        decoder.parse()
    }
}

} // verus!
