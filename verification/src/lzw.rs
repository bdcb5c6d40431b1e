//! The code dictionary of GIF image data.

use crate::wire::fail;
use std::collections::HashMap;
use vstd::prelude::*;

verus! {

broadcast use vstd::std_specs::hash::group_hash_axioms;

/// How many codes a dictionary holds at most.
pub const TABLE: usize = 4096;

/// A dictionary entry: the phrase of an earlier code, with one more pixel.
pub struct Link {
    pub prefix: int,
    pub suffix: u8,
}

/// A dictionary as a decoder sees it. Codes below `clear` stand for single pixels, `clear` empties
/// the dictionary, the code behind it ends the image, and every later code is an entry.
#[verifier::ext_equal]
pub struct Lzw {
    pub minimum: u8,
    pub width: u8,
    pub links: Seq<Link>,
    pub prev: Option<int>,
}

impl Lzw {
    /// The dictionary at the start of an image.
    pub open spec fn fresh(minimum: u8) -> Lzw {
        Lzw {
            minimum,
            width: (minimum + 1) as u8,
            links: Seq::empty(),
            prev: None,
        }
    }

    pub open spec fn clear(self) -> int {
        (1u16 << self.minimum) as int
    }

    /// The code that the next entry gets.
    pub open spec fn next(self) -> int {
        self.clear() + 2 + self.links.len()
    }

    /// Whether a code has a phrase already.
    pub open spec fn known(self, code: int) -> bool {
        0 <= code < self.clear() || self.clear() + 2 <= code < self.next()
    }

    /// Whether a phrase code may come now: a known one, or the one that is about to be defined.
    pub open spec fn legal(self, code: int) -> bool {
        self.known(code) || (code == self.next() && code < TABLE && self.prev is Some)
    }

    /// The pixels that a known code stands for.
    pub open spec fn chain(self, code: int) -> Seq<u8>
        decreases code,
    {
        let link = self.links[code - self.clear() - 2];
        if code < self.clear() {
            seq![code as u8]
        } else if 0 <= link.prefix < code {
            self.chain(link.prefix).push(link.suffix)
        } else {
            Seq::empty()
        }
    }

    /// The pixels that a legal code stands for. The code that is about to be defined repeats the
    /// previous phrase and then its first pixel.
    pub open spec fn phrase(self, code: int) -> Seq<u8> {
        if self.known(code) {
            self.chain(code)
        } else {
            self.chain(self.prev->0).push(self.chain(self.prev->0)[0])
        }
    }

    /// The dictionary after a phrase code: the previous phrase with the first pixel of this one
    /// becomes an entry while there is room, and codes widen when the entries outgrow them.
    pub open spec fn apply(self, code: int) -> Lzw {
        if self.prev is Some && self.next() < TABLE {
            Lzw {
                links: self.links.push(
                    Link { prefix: self.prev->0, suffix: self.phrase(code)[0] },
                ),
                width: if self.next() + 1 == 1u16 << self.width && self.width < 12 {
                    (self.width + 1) as u8
                } else {
                    self.width
                },
                prev: Some(code),
                ..self
            }
        } else {
            Lzw { prev: Some(code), ..self }
        }
    }

    /// The latest entry that extends the phrase of `code` by `pixel`.
    pub open spec fn child(self, code: int, pixel: u8) -> Option<int>
        decreases self.links.len(),
    {
        if self.links.len() == 0 {
            None
        } else if self.links.last() == (Link { prefix: code, suffix: pixel }) {
            Some(self.next() - 1)
        } else {
            (Lzw { links: self.links.drop_last(), ..self }).child(code, pixel)
        }
    }

    /// The code reached from `code` by following entries along `pixels` from `end`, and where the
    /// walk stops.
    pub open spec fn walk(self, pixels: Seq<u8>, code: int, end: int) -> (int, int)
        decreases pixels.len() - end,
    {
        if end < pixels.len() && self.child(code, pixels[end]) is Some {
            self.walk(pixels, self.child(code, pixels[end])->0, end + 1)
        } else {
            (code, end)
        }
    }

    /// The code that an ordinary encoder would choose at `pos` as its decision number `event`:
    /// clear first, clear again when the dictionary is full, the end code after the last pixel,
    /// and otherwise the longest phrase.
    pub open spec fn predict(self, pixels: Seq<u8>, pos: int, event: int) -> int {
        if event == 0 {
            self.clear()
        } else if pos == pixels.len() {
            self.clear() + 1
        } else if self.next() == TABLE {
            self.clear()
        } else {
            let (code, end) = self.walk(pixels, pixels[pos] as int, pos + 1);
            let n = self.chain(self.prev->0).len() as int;
            if self.prev is Some && n + 1 > end - pos && pos >= n && pos + n < pixels.len()
                && pixels[pos + n] == self.chain(self.prev->0)[0] && pixels.subrange(pos, pos + n)
                == pixels.subrange(pos - n, pos) {
                self.next()
            } else {
                code
            }
        }
    }
}

/// What a walk reaches is a code of the dictionary.
proof fn lemma_child_known(d: Lzw, code: int, pixel: u8)
    ensures
        d.child(code, pixel) is Some ==> d.clear() + 2 <= d.child(code, pixel)->0 < d.next(),
    decreases d.links.len(),
{
    if d.links.len() > 0 {
        lemma_child_known(Lzw { links: d.links.drop_last(), ..d }, code, pixel);
    }
}

/// Entries that come later do not change the phrases of earlier codes.
proof fn lemma_chain_kept(a: Lzw, b: Lzw, code: int)
    requires
        a.minimum == b.minimum,
        a.links.len() <= b.links.len(),
        a.links == b.links.subrange(0, a.links.len() as int),
        a.known(code),
        forall|i: int|
            #![trigger a.links[i]]
            0 <= i < a.links.len() ==> a.known(a.links[i].prefix) && a.links[i].prefix < a.clear()
                + 2 + i,
    ensures
        a.chain(code) == b.chain(code),
    decreases code,
{
    if code >= a.clear() {
        let i = code - a.clear() - 2;
        assert(a.links[i] == b.links[i]);
        lemma_chain_kept(a, b, a.links[i].prefix);
    }
}

pub(crate) proof fn lemma_clear(minimum: u8)
    by (bit_vector)
    requires
        1 <= minimum <= 8,
    ensures
        2 <= 1u16 << minimum <= 256,
{
}

pub struct Dict {
    pub clear: u16,
    pub next: u16,
    pub width: u8,
    pub minimum: u8,
    pub prev: Option<u16>,
    pub prefix: Vec<u16>,
    pub suffix: Vec<u8>,
    pub first: Vec<u8>,
    pub length: Vec<u16>,
    pub edges: HashMap<u32, u16>,
}

impl View for Dict {
    type V = Lzw;

    open spec fn view(&self) -> Lzw {
        Lzw {
            minimum: self.minimum,
            width: self.width,
            links: Seq::new(
                (self.next - self.clear - 2) as nat,
                |i: int|
                    Link {
                        prefix: self.prefix@[self.clear + 2 + i] as int,
                        suffix: self.suffix@[self.clear + 2 + i],
                    },
            ),
            prev: match self.prev {
                None => None,
                Some(p) => Some(p as int),
            },
        }
    }
}

impl Dict {
    /// Whether the tables agree with each other.
    pub open spec fn wf(&self) -> bool {
        &&& 1 <= self.minimum <= 8
        &&& self.clear == 1u16 << self.minimum
        &&& 2 <= self.clear <= 256
        &&& self.clear + 2 <= self.next <= TABLE
        &&& self.minimum < self.width <= 12
        &&& self.prefix@.len() == TABLE
        &&& self.suffix@.len() == TABLE
        &&& self.first@.len() == TABLE
        &&& self.length@.len() == TABLE
        &&& forall|c: int| #[trigger] self@.known(c) ==> self.entry_ok(c)
        &&& self.prev is Some ==> self@.known(self.prev->0 as int)
        &&& forall|k: u32| #[trigger] self.edge_ok(k)
    }

    pub open spec fn entry_ok(&self, c: int) -> bool {
        &&& self.length@[c] == self@.chain(c).len()
        &&& 1 <= self.length@[c]
        &&& self.first@[c] == self@.chain(c)[0]
        &&& c < self.clear ==> self.length@[c] == 1
        &&& c >= self.clear ==> self.length@[c] <= c - self.clear
        &&& c >= self.clear ==> self.prefix@[c] < c && (self.prefix@[c] < self.clear
            || self.prefix@[c] >= self.clear + 2)
    }

    pub open spec fn edge_ok(&self, k: u32) -> bool {
        match self@.child((k / 256) as int, (k % 256) as u8) {
            None => !self.edges@.contains_key(k),
            Some(c) => self.edges@.contains_key(k) && self.edges@[k] == c,
        }
    }

    /// A dictionary for pixels of `minimum` bits.
    pub fn new(minimum: u8) -> (r: Result<Self, String>)
        ensures
            match r {
                Ok(d) => 1 <= minimum <= 8 && d.wf() && d@ == Lzw::fresh(minimum),
                Err(e) => !(1 <= minimum <= 8) && e@ == "Unsupported GIF LZW minimum code size"@,
            },
    {
        if minimum < 1 || minimum > 8 {
            return Err(fail("Unsupported GIF LZW minimum code size"));
        }
        proof {
            lemma_clear(minimum);
        }
        let clear: u16 = 1u16 << minimum;
        let mut suffix: Vec<u8> = vec![0u8; TABLE];
        let mut first: Vec<u8> = vec![0u8; TABLE];
        let mut length: Vec<u16> = vec![0u16; TABLE];
        let mut i: usize = 0;
        while i < clear as usize
            invariant
                i <= clear <= 256,
                suffix@.len() == TABLE,
                first@.len() == TABLE,
                length@.len() == TABLE,
                forall|c: int| 0 <= c < i ==> first@[c] == c && length@[c] == 1,
            decreases clear - i,
        {
            suffix[i] = i as u8;
            first[i] = i as u8;
            length[i] = 1;
            i += 1;
        }
        let d = Dict {
            clear,
            next: clear + 2,
            width: minimum + 1,
            minimum,
            prev: None,
            prefix: vec![0u16; TABLE],
            suffix,
            first,
            length,
            edges: HashMap::new(),
        };
        assert(d@ =~= Lzw::fresh(minimum));
        assert forall|k: u32| #[trigger] d.edge_ok(k) by {}
        Ok(d)
    }

    /// Forgets every entry.
    pub fn reset(&mut self)
        requires
            old(self).wf(),
        ensures
            final(self).wf(),
            final(self)@ == Lzw::fresh(old(self).minimum),
    {
        self.next = self.clear + 2;
        self.width = self.minimum + 1;
        self.prev = None;
        self.edges.clear();
        proof {
            assert(self@ =~= Lzw::fresh(old(self).minimum));
            assert forall|c: int| #[trigger] self@.known(c) implies self.entry_ok(c) by {
                assert(old(self)@.known(c));
                assert(old(self).entry_ok(c));
            }
            assert forall|k: u32| #[trigger] self.edge_ok(k) by {}
        }
    }

    /// The length and the first pixel of a phrase.
    pub fn phrase_info(&self, code: u16) -> (r: Result<(usize, u8), String>)
        requires
            self.wf(),
        ensures
            match r {
                Ok((n, first)) => self@.legal(code as int) && n == self@.phrase(code as int).len()
                    && first == self@.phrase(code as int)[0] && 1 <= n <= TABLE,
                Err(e) => !self@.legal(code as int) && e@ == "Invalid GIF LZW phrase code"@,
            },
    {
        if code < self.clear || (code > self.clear + 1 && code < self.next) {
            assert(self@.known(code as int));
            assert(self.entry_ok(code as int));
            return Ok((self.length[code as usize] as usize, self.first[code as usize]));
        }
        assert(!self@.known(code as int));
        if code == self.next && (code as usize) < TABLE {
            if let Some(prev) = self.prev {
                assert(self.entry_ok(prev as int));
                return Ok((self.length[prev as usize] as usize + 1, self.first[prev as usize]));
            }
        }
        Err(fail("Invalid GIF LZW phrase code"))
    }

    /// Takes in a phrase code, and returns the length of its phrase.
    pub fn apply(&mut self, code: u16) -> (r: Result<usize, String>)
        requires
            old(self).wf(),
        ensures
            final(self).wf(),
            match r {
                Ok(n) => old(self)@.legal(code as int) && n == old(self)@.phrase(code as int).len()
                    && 1 <= n <= TABLE && final(self)@ == old(self)@.apply(code as int)
                    && final(self)@.known(code as int) && final(self)@.chain(code as int)
                    == old(self)@.phrase(code as int),
                Err(e) => !old(self)@.legal(code as int) && e@ == "Invalid GIF LZW phrase code"@
                    && *final(self) == *old(self),
            },
    {
        let (len, first) = self.phrase_info(code)?;
        let ghost before = *self;
        if let Some(prev) = self.prev {
            if (self.next as usize) < TABLE {
                let n: usize = self.next as usize;
                proof {
                    assert(self.entry_ok(prev as int));
                }
                self.prefix[n] = prev;
                self.suffix[n] = first;
                self.first[n] = self.first[prev as usize];
                self.length[n] = self.length[prev as usize] + 1;
                let key: u32 = prev as u32 * 256 + first as u32;
                self.edges.insert(key, self.next);
                self.next = self.next + 1;
                if self.next == (1u16 << self.width) && self.width < 12 {
                    self.width = self.width + 1;
                }
                self.prev = Some(code);
                proof {
                    before.lemma_grown(*self, code, prev, first);
                }
                return Ok(len);
            }
        }
        self.prev = Some(code);
        proof {
            assert(self@.links =~= before@.links);
            assert(self@ =~= before@.apply(code as int));
            assert forall|c: int| #[trigger] self@.known(c) implies self.entry_ok(c) by {
                assert(before@.known(c));
                assert(before.entry_ok(c));
                lemma_chain_same(before@, self@, c);
            }
            assert forall|k: u32| #[trigger] self.edge_ok(k) by {
                assert(before.edge_ok(k));
                lemma_child_same(before@, self@, (k / 256) as int, (k % 256) as u8);
            }
            lemma_chain_same(before@, self@, code as int);
        }
        Ok(len)
    }

    proof fn lemma_grown(self, after: Dict, code: u16, prev: u16, first: u8)
        requires
            self.wf(),
            self@.legal(code as int),
            self.prev == Some(prev),
            self.next < TABLE,
            first == self@.phrase(code as int)[0],
            after.clear == self.clear,
            after.minimum == self.minimum,
            after.next == self.next + 1,
            after.prev == Some(code),
            after.width == (if self.next + 1 == 1u16 << self.width && self.width < 12 {
                (self.width + 1) as u8
            } else {
                self.width
            }),
            after.prefix@ == self.prefix@.update(self.next as int, prev),
            after.suffix@ == self.suffix@.update(self.next as int, first),
            after.first@ == self.first@.update(self.next as int, self.first@[prev as int]),
            after.length@ == self.length@.update(
                self.next as int,
                (self.length@[prev as int] + 1) as u16,
            ),
            after.edges@ == self.edges@.insert((prev * 256 + first) as u32, self.next),
        ensures
            after.wf(),
            after@ == self@.apply(code as int),
            after@.known(code as int),
            after@.chain(code as int) == self@.phrase(code as int),
    {
        let a = self@;
        let b = after@;
        assert(b.links =~= a.links.push(Link { prefix: prev as int, suffix: first }));
        assert(b =~= a.apply(code as int));
        assert(a.links =~= b.links.subrange(0, a.links.len() as int));
        assert forall|i: int| #![trigger a.links[i]] 0 <= i < a.links.len() implies a.known(
            a.links[i].prefix,
        ) && a.links[i].prefix < a.clear() + 2 + i by {
            assert(a.known(a.clear() + 2 + i));
            assert(self.entry_ok(a.clear() + 2 + i));
        }
        assert(self.entry_ok(prev as int));
        lemma_chain_kept(a, b, prev as int);
        assert forall|c: int| #[trigger] b.known(c) implies after.entry_ok(c) by {
            if c < self.next {
                assert(a.known(c));
                assert(self.entry_ok(c));
                lemma_chain_kept(a, b, c);
            } else {
                assert(b.links[c - b.clear() - 2] == b.links.last());
                assert(b.chain(c) == b.chain(prev as int).push(first));
                assert(a.known(prev as int));
            }
        }
        assert forall|k: u32| #[trigger] after.edge_ok(k) by {
            assert(self.edge_ok(k));
            assert(b.links.drop_last() =~= a.links);
            lemma_child_same(
                a,
                Lzw { links: b.links.drop_last(), ..b },
                (k / 256) as int,
                (k % 256) as u8,
            );
        }
        if a.known(code as int) {
            lemma_chain_kept(a, b, code as int);
        } else {
            assert(b.links[code - b.clear() - 2] == b.links.last());
        }
    }

    /// Writes the pixels of a known code to the front of `scratch`, and returns how many they are.
    pub fn expand(&self, code: u16, scratch: &mut Vec<u8>) -> (length: usize)
        requires
            self.wf(),
            self@.known(code as int),
            old(scratch)@.len() == TABLE,
        ensures
            final(scratch)@.len() == TABLE,
            length <= TABLE,
            final(scratch)@.subrange(0, length as int) == self@.chain(code as int),
    {
        assert(self.entry_ok(code as int));
        let ghost whole = self@.chain(code as int);
        let length: usize = self.length[code as usize] as usize;
        let mut code: u16 = code;
        let mut pos: usize = length;
        while code >= self.clear
            invariant
                self.wf(),
                self@.known(code as int),
                scratch@.len() == TABLE,
                1 <= pos <= length <= TABLE,
                pos == self.length@[code as int],
                whole == self@.chain(code as int) + scratch@.subrange(pos as int, length as int),
            decreases code,
        {
            assert(self.entry_ok(code as int));
            assert(self@.known(self.prefix@[code as int] as int));
            assert(self.entry_ok(self.prefix@[code as int] as int));
            let ghost tail = scratch@.subrange(pos as int, length as int);
            pos -= 1;
            scratch[pos] = self.suffix[code as usize];
            proof {
                let p = self.prefix@[code as int] as int;
                let link = self@.links[code - self.clear - 2];
                assert(link.prefix == p);
                assert(self@.chain(code as int) == self@.chain(p).push(link.suffix));
                assert(whole =~= self@.chain(p) + scratch@.subrange(pos as int, length as int));
            }
            code = self.prefix[code as usize];
        }
        assert(self.entry_ok(code as int));
        scratch[0] = code as u8;
        proof {
            assert(scratch@.subrange(0, length as int) =~= whole);
        }
        length
    }

    /// The code that an ordinary encoder would choose next.
    pub fn predict(&self, pixels: &[u8], pos: usize, event: usize) -> (code: u16)
        requires
            self.wf(),
            pos <= pixels@.len(),
        ensures
            code == self@.predict(pixels@, pos as int, event as int),
    {
        if event == 0 {
            return self.clear;
        }
        if pos == pixels.len() {
            return self.clear + 1;
        }
        if self.next as usize == TABLE {
            return self.clear;
        }
        let mut code: u16 = pixels[pos] as u16;
        let mut end: usize = pos + 1;
        let ghost reached = self@.walk(pixels@, code as int, end as int);
        while end < pixels.len()
            invariant_except_break
                self@.walk(pixels@, code as int, end as int) == reached,
            invariant
                self.wf(),
                code < TABLE,
                pos < end <= pixels@.len(),
            ensures
                reached == (code as int, end as int),
            decreases pixels.len() - end,
        {
            let key: u32 = code as u32 * 256 + pixels[end] as u32;
            proof {
                assert(self.edge_ok(key));
                lemma_child_known(self@, code as int, pixels@[end as int]);
            }
            match self.edges.get(&key) {
                Some(next) => {
                    code = *next;
                    end += 1;
                },
                None => {
                    break ;
                },
            }
        }
        if let Some(prev) = self.prev {
            assert(self.entry_ok(prev as int));
            let n: usize = self.length[prev as usize] as usize;
            if n + 1 > end - pos && pos >= n && pos < pixels.len() - n && pixels[pos + n]
                == self.first[prev as usize] && crate::wire::same(
                vstd::slice::slice_subrange(pixels, pos, pos + n),
                vstd::slice::slice_subrange(pixels, pos - n, pos),
            ) {
                return self.next;
            }
        }
        code
    }
}

/// The phrase of a code depends on the entries alone.
proof fn lemma_chain_same(a: Lzw, b: Lzw, code: int)
    requires
        a.minimum == b.minimum,
        a.links == b.links,
    ensures
        a.chain(code) == b.chain(code),
    decreases code,
{
    let link = a.links[code - a.clear() - 2];
    if code >= a.clear() && 0 <= link.prefix < code {
        lemma_chain_same(a, b, link.prefix);
    }
}

/// So does the latest extension of a phrase.
proof fn lemma_child_same(a: Lzw, b: Lzw, code: int, pixel: u8)
    requires
        a.minimum == b.minimum,
        a.links == b.links,
    ensures
        a.child(code, pixel) == b.child(code, pixel),
    decreases a.links.len(),
{
    if a.links.len() > 0 {
        lemma_child_same(
            Lzw { links: a.links.drop_last(), ..a },
            Lzw { links: b.links.drop_last(), ..b },
            code,
            pixel,
        );
    }
}

}
