//! The binary vector stream reader: parses the header of a vector file
//! and produces its (word, raw vector) entries one at a time.

use vstd::prelude::*;

use crate::errors::Word2VecError;
use crate::parse::{
    copy_range, find_byte, find_byte_in, le_u32_at, lemma_find_byte, parse_header_uints,
    read_le_u32, trim_ascii_ws, trim_vec, uints_from, utf8_to_string,
};

verus! {

/// The header line: every byte before the first line feed.
pub open spec fn header_line(data: Seq<u8>) -> Seq<u8> {
    data.subrange(0, find_byte(data, 0, 10))
}

/// First position after the header line: one past the line feed, or the
/// end when the bytes hold no line feed.
pub open spec fn header_end(data: Seq<u8>) -> int {
    let nl = find_byte(data, 0, 10);
    if nl < data.len() {
        nl + 1
    } else {
        nl
    }
}

/// The word bytes of the entry that starts at `pos`: everything up to
/// the delimiting ASCII space (or the end), with surrounding ASCII
/// whitespace trimmed — files may prefix a record's word with a stray
/// newline.
pub open spec fn entry_word_bytes(data: Seq<u8>, pos: int) -> Seq<u8> {
    trim_ascii_ws(data.subrange(pos, find_byte(data, pos, 32)))
}

/// Where the vector of the entry that starts at `pos` begins: one past
/// the delimiting space, or the end when no space remains.
pub open spec fn entry_vec_start(data: Seq<u8>, pos: int) -> int {
    let sp = find_byte(data, pos, 32);
    if sp < data.len() {
        sp + 1
    } else {
        sp
    }
}

/// True when a whole entry — a word that decodes as UTF-8 and
/// `vector_size` little-endian 32-bit components — lies at `pos` and the
/// declared vocabulary size has not yet been reached. Exactly then does
/// [`WordVectorReader::next_entry`] produce an entry; on anything else
/// iteration stops, the lenient policy for truncated streams.
pub open spec fn can_read_entry(
    data: Seq<u8>,
    pos: int,
    produced: int,
    vocabulary_size: int,
    vector_size: int,
) -> bool {
    &&& produced < vocabulary_size
    &&& pos < data.len()
    &&& vstd::utf8::valid_utf8(entry_word_bytes(data, pos))
    &&& entry_vec_start(data, pos) + 4 * vector_size <= data.len()
}

/// The (characters, components) views of a sequence of entries.
pub open spec fn entry_views(entries: Seq<(String, Vec<u32>)>) -> Seq<(Seq<char>, Seq<u32>)> {
    Seq::new(entries.len(), |i: int| (entries[i].0@, entries[i].1@))
}

/// The entries still to come from a reader standing at `pos` with
/// `produced` entries already out: each next entry's word and
/// little-endian components, until one cannot be read whole.
pub open spec fn entries_from(
    data: Seq<u8>,
    pos: int,
    produced: int,
    vocabulary_size: int,
    vector_size: int,
) -> Seq<(Seq<char>, Seq<u32>)>
    decreases vocabulary_size - produced,
    when produced <= vocabulary_size
{
    if !can_read_entry(data, pos, produced, vocabulary_size, vector_size) {
        Seq::empty()
    } else {
        let vstart = entry_vec_start(data, pos);
        let word = vstd::utf8::decode_utf8(entry_word_bytes(data, pos));
        let vector = Seq::new(vector_size as nat, |j: int| le_u32_at(data, vstart + 4 * j));
        seq![(word, vector)] + entries_from(
            data,
            vstart + 4 * vector_size,
            produced + 1,
            vocabulary_size,
            vector_size,
        )
    }
}

/// Reader over the bytes of a vector file: a text header line
/// `"<vocabulary_size> <vector_size>\n"`, then for each entry a word —
/// bytes up to a single ASCII space — followed by `vector_size`
/// little-endian 32-bit values, the bit patterns of the entry's IEEE-754
/// single-precision components, with no padding between entries.
///
/// A pure forward, one-pass producer: entries come out in stream order
/// until `vocabulary_size` of them have been produced or the bytes run
/// out, and no position is ever read twice. It does not normalize;
/// that is the vocabulary store's step.
pub struct WordVectorReader {
    vocabulary_size: usize,
    vector_size: usize,
    data: Vec<u8>,
    pos: usize,
    produced: usize,
}

impl WordVectorReader {
    /// Well-formedness: the cursor stays within the bytes and the count
    /// of produced entries within the declared vocabulary size.
    #[verifier::type_invariant]
    pub closed spec fn wf(&self) -> bool {
        &&& self.pos <= self.data@.len()
        &&& self.produced <= self.vocabulary_size
    }

    /// Number of entries the header declares.
    pub closed spec fn spec_vocabulary_size(&self) -> usize {
        self.vocabulary_size
    }

    /// Dimensionality the header declares.
    pub closed spec fn spec_vector_size(&self) -> usize {
        self.vector_size
    }

    /// The underlying bytes.
    pub closed spec fn spec_data(&self) -> Seq<u8> {
        self.data@
    }

    /// Current read position.
    pub closed spec fn spec_pos(&self) -> int {
        self.pos as int
    }

    /// Entries produced so far.
    pub closed spec fn spec_produced(&self) -> int {
        self.produced as int
    }

    pub fn vocabulary_size(&self) -> (r: usize)
        ensures
            r == self.spec_vocabulary_size(),
    {
        self.vocabulary_size
    }

    pub fn vector_size(&self) -> (r: usize)
        ensures
            r == self.spec_vector_size(),
    {
        self.vector_size
    }

    /// Parse the header line of `data` and position a reader on the
    /// first entry. Succeeds exactly when the tokens of the first line
    /// hold exactly two non-negative integers — the vocabulary size and
    /// the vector size, in that order; tokens that do not parse as
    /// integers are passed over.
    pub fn new_from_reader(data: Vec<u8>) -> (r: Result<WordVectorReader, Word2VecError>)
        ensures
            match r {
                Ok(rd) => {
                    &&& uints_from(header_line(data@), 0) =~= seq![
                        rd.spec_vocabulary_size() as int,
                        rd.spec_vector_size() as int,
                    ]
                    &&& rd.spec_data() == data@
                    &&& rd.spec_pos() == header_end(data@)
                    &&& rd.spec_produced() == 0
                },
                Err(e) => {
                    &&& e == Word2VecError::WrongHeader
                    &&& uints_from(header_line(data@), 0).len() != 2
                },
            },
    {
        let nl = find_byte_in(&data, 0, 10);
        proof {
            lemma_find_byte(data@, 0, 10);
        }
        let line = copy_range(&data, 0, nl);
        match parse_header_uints(&line) {
            Some((vocabulary_size, vector_size)) => {
                let pos = if nl < data.len() {
                    nl + 1
                } else {
                    nl
                };
                Ok(WordVectorReader { vocabulary_size, vector_size, data, pos, produced: 0 })
            },
            None => Err(Word2VecError::WrongHeader),
        }
    }

    /// Produce the next (word, vector) entry, or stop.
    ///
    /// `None` comes exactly when no whole entry remains: the declared
    /// vocabulary size has been reached, the bytes are exhausted, the
    /// word does not decode as UTF-8, or fewer than `vector_size`
    /// components follow it. A truncated stream thus ends iteration
    /// without an error, and the reader is left unchanged.
    pub fn next_entry(&mut self) -> (r: Option<(String, Vec<u32>)>)
        ensures
            final(self).spec_vocabulary_size() == old(self).spec_vocabulary_size(),
            final(self).spec_vector_size() == old(self).spec_vector_size(),
            final(self).spec_data() == old(self).spec_data(),
            r is Some <==> can_read_entry(
                old(self).spec_data(),
                old(self).spec_pos(),
                old(self).spec_produced(),
                old(self).spec_vocabulary_size() as int,
                old(self).spec_vector_size() as int,
            ),
            r matches Some(e) ==> {
                let data = old(self).spec_data();
                let pos = old(self).spec_pos();
                let vstart = entry_vec_start(data, pos);
                &&& e.0@ == vstd::utf8::decode_utf8(entry_word_bytes(data, pos))
                &&& e.1@.len() == old(self).spec_vector_size()
                &&& forall|j: int|
                    0 <= j < e.1@.len() ==> e.1@[j] == le_u32_at(data, vstart + 4 * j)
                &&& final(self).spec_pos() == vstart + 4 * old(self).spec_vector_size()
                &&& final(self).spec_produced() == old(self).spec_produced() + 1
            },
            r is None ==> *final(self) == *old(self),
    {
        proof {
            use_type_invariant(&*self);
        }
        if self.produced >= self.vocabulary_size {
            return None;
        }
        if self.pos >= self.data.len() {
            return None;
        }
        let sp = find_byte_in(&self.data, self.pos, 32);
        proof {
            lemma_find_byte(self.data@, self.pos as int, 32);
        }
        let word_raw = copy_range(&self.data, self.pos, sp);
        let word_trimmed = trim_vec(&word_raw);
        let word = match utf8_to_string(word_trimmed) {
            Some(w) => w,
            None => {
                return None;
            },
        };
        let vstart = if sp < self.data.len() {
            sp + 1
        } else {
            sp
        };
        let remaining = self.data.len() - vstart;
        if self.vector_size > remaining / 4 {
            return None;
        }
        proof {
            assert(remaining as int == 4 * (remaining as int / 4) + (remaining as int % 4));
            assert(4 * (self.vector_size as int) <= 4 * (remaining as int / 4));
            assert(vstart + 4 * (self.vector_size as int) <= self.data@.len());
        }
        let mut vector: Vec<u32> = Vec::with_capacity(self.vector_size);
        let mut j: usize = 0;
        let mut p = vstart;
        while j < self.vector_size
            invariant
                *self == *old(self),
                0 <= j <= self.vector_size,
                p == vstart as int + 4 * j,
                vstart as int + 4 * (self.vector_size as int) <= self.data@.len(),
                self.data@.len() <= usize::MAX,
                vector@.len() == j,
                forall|q: int|
                    0 <= q < j ==> vector@[q] == le_u32_at(self.data@, vstart as int + 4 * q),
            decreases self.vector_size - j,
        {
            proof {
                assert(p + 4 <= vstart as int + 4 * (self.vector_size as int));
            }
            let x = read_le_u32(&self.data, p);
            vector.push(x);
            p = p + 4;
            j = j + 1;
        }
        self.pos = p;
        self.produced = self.produced + 1;
        Some((word, vector))
    }

    /// Drive the reader to exhaustion, collecting every remaining
    /// entry in stream order — exactly the entries [`entries_from`]
    /// names: at most `vocabulary_size` in all, each vector exactly
    /// `vector_size` long.
    pub fn read_all_entries(&mut self) -> (r: Vec<(String, Vec<u32>)>)
        ensures
            final(self).spec_vocabulary_size() == old(self).spec_vocabulary_size(),
            final(self).spec_vector_size() == old(self).spec_vector_size(),
            r@.len() + old(self).spec_produced() <= old(self).spec_vocabulary_size(),
            forall|i: int|
                0 <= i < r@.len() ==> (#[trigger] r@[i]).1@.len() == old(
                    self,
                ).spec_vector_size(),
            entry_views(r@) == entries_from(
                old(self).spec_data(),
                old(self).spec_pos(),
                old(self).spec_produced(),
                old(self).spec_vocabulary_size() as int,
                old(self).spec_vector_size() as int,
            ),
    {
        proof {
            use_type_invariant(&*self);
        }
        let ghost data0 = self.spec_data();
        let ghost pos0 = self.spec_pos();
        let ghost produced0 = self.spec_produced();
        let ghost vocab = old(self).spec_vocabulary_size() as int;
        let ghost dim = old(self).spec_vector_size() as int;
        let mut r: Vec<(String, Vec<u32>)> = Vec::new();
        proof {
            assert(entry_views(r@) =~= Seq::<(Seq<char>, Seq<u32>)>::empty());
            assert(entry_views(r@) + entries_from(data0, pos0, produced0, vocab, dim)
                =~= entries_from(data0, pos0, produced0, vocab, dim));
        }
        loop
            invariant
                self.spec_vocabulary_size() == old(self).spec_vocabulary_size(),
                self.spec_vector_size() == old(self).spec_vector_size(),
                self.spec_data() == data0,
                data0 == old(self).spec_data(),
                pos0 == old(self).spec_pos(),
                produced0 == old(self).spec_produced(),
                vocab == old(self).spec_vocabulary_size() as int,
                dim == old(self).spec_vector_size() as int,
                self.spec_produced() == produced0 + r@.len(),
                self.spec_produced() <= vocab,
                forall|i: int| 0 <= i < r@.len() ==> (#[trigger] r@[i]).1@.len() == dim,
                entries_from(data0, pos0, produced0, vocab, dim) == entry_views(r@)
                    + entries_from(data0, self.spec_pos(), self.spec_produced(), vocab, dim),
            decreases vocab - self.spec_produced() + 1,
        {
            proof {
                use_type_invariant(&*self);
            }
            let ghost pos_cur = self.spec_pos();
            let ghost produced_cur = self.spec_produced();
            let ghost views_cur = entry_views(r@);
            match self.next_entry() {
                Some(e) => {
                    let ghost e_g = e;
                    r.push(e);
                    proof {
                        let vstart = entry_vec_start(data0, pos_cur);
                        let head = (
                            vstd::utf8::decode_utf8(entry_word_bytes(data0, pos_cur)),
                            Seq::new(dim as nat, |j: int| le_u32_at(data0, vstart + 4 * j)),
                        );
                        assert(e_g.1@ =~= head.1);
                        assert((e_g.0@, e_g.1@) == head);
                        assert(entries_from(data0, pos_cur, produced_cur, vocab, dim) == seq![head]
                            + entries_from(
                            data0,
                            self.spec_pos(),
                            self.spec_produced(),
                            vocab,
                            dim,
                        ));
                        assert(entry_views(r@) =~= views_cur.push(head));
                        assert(views_cur + (seq![head] + entries_from(
                            data0,
                            self.spec_pos(),
                            self.spec_produced(),
                            vocab,
                            dim,
                        )) =~= views_cur.push(head) + entries_from(
                            data0,
                            self.spec_pos(),
                            self.spec_produced(),
                            vocab,
                            dim,
                        ));
                    }
                },
                None => {
                    proof {
                        use_type_invariant(&*self);
                        assert(entries_from(data0, pos_cur, produced_cur, vocab, dim)
                            =~= Seq::<(Seq<char>, Seq<u32>)>::empty());
                        assert(entry_views(r@) + entries_from(data0, pos_cur, produced_cur, vocab, dim)
                            =~= entry_views(r@));
                    }
                    return r;
                },
            }
        }
    }
}

} // verus!
