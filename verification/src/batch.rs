use crate::chunk::{chunk, chunk_spec, chunks_view, join, join_spec};
use crate::codec::{decode_spec, encode_bytes};
use crate::config::Config;
use crate::engine::Engine;
use crate::errors::CodecError;
use vstd::prelude::*;

verus! {

// ---------------------------------------------------------------------------
// Batch operations: ordered sequences of items, some positions possibly
// absent.  An absent input position always yields an absent output
// position, never an error; a decode failure degrades that one position
// to absent instead of failing the batch.
// ---------------------------------------------------------------------------

/// How one batch position relates to its encoded counterpart.
pub open spec fn encoded_item(
    alpha: Seq<u8>,
    pad: u8,
    pads: bool,
    it: Option<Vec<u8>>,
    ot: Option<Vec<u8>>,
) -> bool {
    match it {
        Option::None => ot is None,
        Option::Some(x) => ot matches Some(y) && y@ == encode_bytes(alpha, pad, pads, x@),
    }
}

/// How one batch position relates to its decoded counterpart: a position
/// that fails to decode becomes absent.
pub open spec fn decoded_item(
    alpha: Seq<u8>,
    pad: u8,
    cfg: Config,
    it: Option<Vec<u8>>,
    ot: Option<Vec<u8>>,
) -> bool {
    match it {
        Option::None => ot is None,
        Option::Some(t) => match decode_spec(alpha, pad, cfg, t@) {
            Result::Ok(b) => ot matches Some(y) && y@ == b,
            Result::Err(_) => ot is None,
        },
    }
}

/// How one batch position relates to its chunked counterpart.
pub open spec fn chunked_item(w: int, it: Option<Vec<u8>>, ot: Option<Vec<Vec<u8>>>) -> bool {
    match it {
        Option::None => ot is None,
        Option::Some(x) => ot matches Some(y) && chunks_view(y@) == chunk_spec(x@, w),
    }
}

/// How one batch position relates to its joined counterpart.
pub open spec fn joined_item(sep: Seq<u8>, it: Option<Vec<Vec<u8>>>, ot: Option<Vec<u8>>) -> bool {
    match it {
        Option::None => ot is None,
        Option::Some(x) => ot matches Some(y) && y@ == join_spec(chunks_view(x@), sep),
    }
}

impl Engine {
    /// Encodes a batch, position by position, absent positions passing
    /// through as absent.
    pub fn encode_batch(&self, items: &Vec<Option<Vec<u8>>>) -> (out: Vec<Option<Vec<u8>>>)
        requires
            self.wf(),
        ensures
            out@.len() == items@.len(),
            forall|i: int|
                0 <= i < items@.len() ==> encoded_item(
                    self.alpha(),
                    self.pad_spec(),
                    self.cfg().encode_padding,
                    items@[i],
                    out@[i],
                ),
    {
        let mut out: Vec<Option<Vec<u8>>> = Vec::new();
        let mut i: usize = 0;
        while i < items.len()
            invariant
                self.wf(),
                i <= items@.len(),
                out@.len() == i,
                forall|k: int|
                    0 <= k < i ==> encoded_item(
                        self.alpha(),
                        self.pad_spec(),
                        self.cfg().encode_padding,
                        items@[k],
                        out@[k],
                    ),
            decreases items@.len() - i,
        {
            match &items[i] {
                Option::None => out.push(None),
                Option::Some(x) => {
                    let enc = self.encode(x.as_slice());
                    out.push(Some(enc));
                },
            }
            i = i + 1;
        }
        out
    }

    /// Decodes a batch, position by position: an absent position stays
    /// absent, a position that fails to decode becomes absent, every other
    /// position is decoded normally.
    pub fn decode_batch(&self, items: &Vec<Option<Vec<u8>>>) -> (out: Vec<Option<Vec<u8>>>)
        requires
            self.wf(),
        ensures
            out@.len() == items@.len(),
            forall|i: int|
                0 <= i < items@.len() ==> decoded_item(
                    self.alpha(),
                    self.pad_spec(),
                    self.cfg(),
                    items@[i],
                    out@[i],
                ),
    {
        let mut out: Vec<Option<Vec<u8>>> = Vec::new();
        let mut i: usize = 0;
        while i < items.len()
            invariant
                self.wf(),
                i <= items@.len(),
                out@.len() == i,
                forall|k: int|
                    0 <= k < i ==> decoded_item(
                        self.alpha(),
                        self.pad_spec(),
                        self.cfg(),
                        items@[k],
                        out@[k],
                    ),
            decreases items@.len() - i,
        {
            match &items[i] {
                Option::None => out.push(None),
                Option::Some(t) => {
                    match self.decode(t.as_slice()) {
                        Result::Ok(b) => out.push(Some(b)),
                        Result::Err(_) => out.push(None),
                    }
                },
            }
            i = i + 1;
        }
        out
    }
}

/// Chunks a batch at one width, absent positions passing through as
/// absent.  An invalid width fails the whole call eagerly.
pub fn chunk_batch(items: &Vec<Option<Vec<u8>>>, width: usize) -> (r: Result<
    Vec<Option<Vec<Vec<u8>>>>,
    CodecError,
>)
    ensures
        (r is Ok) == (width > 0 && width % 4 == 0),
        r matches Ok(out) ==> out@.len() == items@.len() && (forall|i: int|
            0 <= i < items@.len() ==> chunked_item(width as int, items@[i], out@[i])),
        r is Err ==> r == Err::<Vec<Option<Vec<Vec<u8>>>>, CodecError>(CodecError::InvalidWidth),
{
    if width == 0 || width % 4 != 0 {
        return Err(CodecError::InvalidWidth);
    }
    let mut out: Vec<Option<Vec<Vec<u8>>>> = Vec::new();
    let mut i: usize = 0;
    while i < items.len()
        invariant
            width > 0 && width % 4 == 0,
            i <= items@.len(),
            out@.len() == i,
            forall|k: int| 0 <= k < i ==> chunked_item(width as int, items@[k], out@[k]),
        decreases items@.len() - i,
    {
        match &items[i] {
            Option::None => out.push(None),
            Option::Some(x) => {
                match chunk(x.as_slice(), width) {
                    Result::Ok(c) => out.push(Some(c)),
                    Result::Err(_) => {
                        proof {
                            assert(false);
                        }
                    },
                }
            },
        }
        i = i + 1;
    }
    Ok(out)
}

/// Joins a batch of chunk sequences with one separator, absent positions
/// passing through as absent.
pub fn join_batch(items: &Vec<Option<Vec<Vec<u8>>>>, sep: &[u8]) -> (out: Vec<Option<Vec<u8>>>)
    ensures
        out@.len() == items@.len(),
        forall|i: int| 0 <= i < items@.len() ==> joined_item(sep@, items@[i], out@[i]),
{
    let mut out: Vec<Option<Vec<u8>>> = Vec::new();
    let mut i: usize = 0;
    while i < items.len()
        invariant
            i <= items@.len(),
            out@.len() == i,
            forall|k: int| 0 <= k < i ==> joined_item(sep@, items@[k], out@[k]),
        decreases items@.len() - i,
    {
        match &items[i] {
            Option::None => out.push(None),
            Option::Some(x) => {
                let j = join(x, sep);
                out.push(Some(j));
            },
        }
        i = i + 1;
    }
    out
}

} // verus!
