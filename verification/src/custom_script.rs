//! The script descriptor and the ordered set of named input images.
//!
//! A descriptor pairs an expression with named input locators. The order of
//! the inputs is load-bearing: it fixes the argument binding order of the
//! compiled pixel function, so the inputs live in an ordered sequence of
//! pairs, never in an unordered map.

use crate::descriptor::{
    all_members_valid, members_view, parse_descriptor_bytes, spec_parse_descriptor,
};
use crate::utils::{string_from_utf8, Error, ErrorView, ImageData};
use vstd::prelude::*;
use vstd::string::{StringExecFns, StringSliceAdditionalSpecFns};
use vstd::utf8::{decode_utf8, decode_utf8_encode_utf8, encode_utf8, encode_utf8_valid_utf8};

verus! {

/// A parsed script descriptor: the expression text and the declared inputs,
/// each a `(name, locator)` pair, in the order the descriptor declares them.
/// Names are unique; a duplicate declaration keeps the position of the
/// first occurrence and the value of the last.
pub struct CustomScript {
    pub script: String,
    pub inputs: Vec<(String, String)>,
}

impl CustomScript {
    /// The declared input names are pairwise distinct.
    pub open spec fn wf(&self) -> bool {
        forall|i: int, j: int|
            0 <= i < j < self.inputs@.len() ==> (#[trigger] self.inputs@[i]).0@ != (
            #[trigger] self.inputs@[j]).0@
    }

    /// Parses a descriptor from its JSON text. Returns the descriptor the
    /// text spells — the expression and the inputs in declaration order,
    /// stated against [`spec_parse_descriptor`] through the UTF-8 encoding
    /// of the parsed fields — or refuses malformed text, and exactly that,
    /// with `DescriptorParseError`.
    pub fn new_from_str(json_str: &str) -> (r: Result<CustomScript, Error>)
        ensures
            match r {
                Ok(cs) => ({
                    let d = spec_parse_descriptor(json_str.spec_bytes());
                    &&& d is Some
                    &&& encode_utf8(cs.script@) == d->Some_0.script
                    &&& cs.inputs@.len() == d->Some_0.inputs.len()
                    &&& forall|k: int|
                        0 <= k < cs.inputs@.len() ==> encode_utf8(
                            (#[trigger] cs.inputs@[k]).0@,
                        ) == d->Some_0.inputs[k].0 && encode_utf8(cs.inputs@[k].1@)
                            == d->Some_0.inputs[k].1
                    &&& cs.wf()
                }),
                Err(e) => spec_parse_descriptor(json_str.spec_bytes()) is None && e@
                    == ErrorView::DescriptorParseError("invalid script descriptor"@),
            },
    {
        let b: &[u8] = json_str.as_bytes();
        proof {
            encode_utf8_valid_utf8(json_str@);
        }
        match parse_descriptor_bytes(b) {
            None => Err(
                Error::DescriptorParseError(String::from_str("invalid script descriptor")),
            ),
            Some((sbytes, ins)) => {
                proof {
                    crate::descriptor::lemma_descriptor_valid(b@);
                }
                let ghost d = spec_parse_descriptor(b@)->Some_0;
                let script = string_from_utf8(sbytes);
                let mut inputs: Vec<(String, String)> = Vec::new();
                let mut k: usize = 0;
                while k < ins.len()
                    invariant
                        k <= ins@.len(),
                        inputs@.len() == k,
                        members_view(ins@) == d.inputs,
                        all_members_valid(d.inputs),
                        forall|t: int|
                            0 <= t < k ==> (#[trigger] inputs@[t]).0@ == decode_utf8(d.inputs[t].0)
                                && inputs@[t].1@ == decode_utf8(d.inputs[t].1),
                    decreases ins@.len() - k,
                {
                    proof {
                        assert(members_view(ins@)[k as int] == (ins@[k as int].0@, ins@[
                            k as int].1@));
                    }
                    let name = string_from_utf8(clone_bytes(&ins[k].0));
                    let value = string_from_utf8(clone_bytes(&ins[k].1));
                    inputs.push((name, value));
                    k = k + 1;
                }
                let cs = CustomScript { script, inputs };
                proof {
                    decode_utf8_encode_utf8(d.script);
                    assert forall|t: int| 0 <= t < cs.inputs@.len() implies encode_utf8(
                        (#[trigger] cs.inputs@[t]).0@,
                    ) == d.inputs[t].0 && encode_utf8(cs.inputs@[t].1@) == d.inputs[t].1 by {
                        decode_utf8_encode_utf8(d.inputs[t].0);
                        decode_utf8_encode_utf8(d.inputs[t].1);
                    }
                    assert forall|i: int, j: int| 0 <= i < j < cs.inputs@.len() implies (
                    #[trigger] cs.inputs@[i]).0@ != (#[trigger] cs.inputs@[j]).0@ by {
                        decode_utf8_encode_utf8(d.inputs[i].0);
                        decode_utf8_encode_utf8(d.inputs[j].0);
                        assert(d.inputs[i].0 != d.inputs[j].0);
                        if cs.inputs@[i].0@ == cs.inputs@[j].0@ {
                            assert(encode_utf8(cs.inputs@[i].0@) == encode_utf8(cs.inputs@[j].0@));
                        }
                    }
                }
                Ok(cs)
            },
        }
    }

    /// How many inputs the descriptor declares.
    pub fn input_count(&self) -> (n: usize)
        ensures
            n == self.inputs@.len(),
    {
        self.inputs.len()
    }

    /// The declared locators, in declaration order: the order in which the
    /// caller opens and extracts the sources.
    pub fn input_locators(&self) -> (r: Vec<String>)
        ensures
            r@.len() == self.inputs@.len(),
            forall|k: int| 0 <= k < r@.len() ==> r@[k] == (#[trigger] self.inputs@[k]).1,
    {
        let mut r: Vec<String> = Vec::new();
        let mut k: usize = 0;
        while k < self.inputs.len()
            invariant
                k <= self.inputs@.len(),
                r@.len() == k,
                forall|i: int| 0 <= i < k ==> r@[i] == (#[trigger] self.inputs@[i]).1,
            decreases self.inputs@.len() - k,
        {
            r.push(self.inputs[k].1.clone());
            k = k + 1;
        }
        r
    }

    /// The declared input names, in declaration order: the argument names
    /// the expression is compiled against.
    pub fn input_names(&self) -> (r: Vec<String>)
        ensures
            r@.len() == self.inputs@.len(),
            forall|k: int| 0 <= k < r@.len() ==> r@[k] == (#[trigger] self.inputs@[k]).0,
    {
        let mut r: Vec<String> = Vec::new();
        let mut k: usize = 0;
        while k < self.inputs.len()
            invariant
                k <= self.inputs@.len(),
                r@.len() == k,
                forall|i: int| 0 <= i < k ==> r@[i] == (#[trigger] self.inputs@[i]).0,
            decreases self.inputs@.len() - k,
        {
            r.push(self.inputs[k].0.clone());
            k = k + 1;
        }
        r
    }
}

/// A copy of a byte buffer.
fn clone_bytes(v: &Vec<u8>) -> (r: Vec<u8>)
    ensures
        r@ == v@,
{
    let r = v.clone();
    proof {
        assert forall|i: int| 0 <= i < v@.len() implies r@[i] == v@[i] by {
            assert(vstd::pervasive::cloned(v@[i], r@[i]));
        }
        assert(r@ =~= v@);
    }
    r
}

/// The images extracted for one tile request, one per declared input, in
/// declaration order, all sized `tile_size` by `tile_size`. A vector of
/// pairs and not a map, so that the argument order handed to the compiled
/// function is exactly the declaration order.
pub struct ImageDataCollection<T> {
    pub images: Vec<(String, ImageData<T>)>,
    pub tile_size: usize,
}

impl<T> ImageDataCollection<T> {
    /// Every image is well-formed and covers the full tile.
    pub open spec fn wf(&self) -> bool {
        forall|k: int|
            0 <= k < self.images@.len() ==> {
                let img = (#[trigger] self.images@[k]).1;
                img.wf() && img.width == self.tile_size && img.height == self.tile_size
            }
    }

    /// An empty collection for a tile of the given pixel size.
    pub fn new(tile_size: usize) -> (r: ImageDataCollection<T>)
        ensures
            r.images@.len() == 0,
            r.tile_size == tile_size,
            r.wf(),
    {
        ImageDataCollection { images: Vec::new(), tile_size }
    }

    /// Appends the extracted image of the next declared input. The image
    /// must cover the full tile, which keeps the collection well-formed.
    pub fn push_image(&mut self, name: String, image: ImageData<T>)
        requires
            old(self).wf(),
            image.wf(),
            image.width == old(self).tile_size,
            image.height == old(self).tile_size,
        ensures
            final(self).wf(),
            final(self).tile_size == old(self).tile_size,
            final(self).images@ == old(self).images@.push((name, image)),
    {
        self.images.push((name, image));
    }

    /// The input names, in order: the argument names of the compiled pixel
    /// function.
    pub fn names(&self) -> (r: Vec<String>)
        ensures
            r@.len() == self.images@.len(),
            forall|k: int| 0 <= k < r@.len() ==> r@[k] == (#[trigger] self.images@[k]).0,
    {
        let mut r: Vec<String> = Vec::new();
        let mut k: usize = 0;
        while k < self.images.len()
            invariant
                k <= self.images@.len(),
                r@.len() == k,
                forall|i: int| 0 <= i < k ==> r@[i] == (#[trigger] self.images@[i]).0,
            decreases self.images@.len() - k,
        {
            r.push(self.images[k].0.clone());
            k = k + 1;
        }
        r
    }
}

impl<T: Copy> ImageDataCollection<T> {
    /// The call arguments for one pixel: for every input, in order, the
    /// channel samples of the pixel at row `i`, column `j`.
    pub fn pixel_args(&self, i: usize, j: usize) -> (args: Vec<Vec<T>>)
        requires
            self.wf(),
            i < self.tile_size,
            j < self.tile_size,
        ensures
            args@.len() == self.images@.len(),
            forall|k: int|
                0 <= k < args@.len() ==> (#[trigger] args@[k])@ == self.images@[k].1.spec_pixel(
                    i as int,
                    j as int,
                ),
    {
        let mut args: Vec<Vec<T>> = Vec::new();
        let mut k: usize = 0;
        while k < self.images.len()
            invariant
                self.wf(),
                i < self.tile_size,
                j < self.tile_size,
                k <= self.images@.len(),
                args@.len() == k,
                forall|m: int|
                    0 <= m < k ==> (#[trigger] args@[m])@ == self.images@[m].1.spec_pixel(
                        i as int,
                        j as int,
                    ),
            decreases self.images@.len() - k,
        {
            let px = self.images[k].1.pixel_data(i, j);
            args.push(vstd::slice::slice_to_vec(px));
            k = k + 1;
        }
        args
    }
}

} // verus!
