use vstd::prelude::*;
use vstd::utf8::{encode_utf8, valid_utf8};
use vstd::string::StringSliceAdditionalSpecFns;

use crate::borrow::Borrow;
use crate::region::{concat, lemma_concat_append, lemma_concat_split, Region};
use crate::{lemma_weights_push, weight, weights, Columnar, ColumnarBuf, Val};

verus! {

broadcast use vstd::utf8::encode_utf8_valid_utf8, vstd::utf8::encode_utf8_decode_utf8;

/// Largest segment of the bytes of a text buffer.
pub const TEXT_SEGMENT_LIMIT: usize = 1_000_000 * 16;

/// The UTF-8 encoding of each text.
pub open spec fn encodings(texts: Seq<Seq<char>>) -> Seq<Seq<u8>> {
    texts.map_values(|t: Seq<char>| encode_utf8(t))
}

/// Relies on std::str::from_utf8: the bytes read as text exactly when they
/// are valid UTF-8.
#[verifier::external_body]
fn text_of<'a>(b: &'a [u8]) -> (r: Option<&'a str>)
    ensures
        r is Some <==> valid_utf8(b@),
        r matches Some(s) ==> s.spec_bytes() == b@,
{
    std::str::from_utf8(b).ok()
}

/// Texts stored as one run of bytes, with the end offset of each text.
pub struct StringBuf {
    idx: Vec<usize>,
    data: Region<u8>,
    texts: Ghost<Seq<Seq<char>>>,
}

impl StringBuf {
    /// The texts stored, in order.
    pub closed spec fn texts(&self) -> Seq<Seq<char>> {
        self.texts@
    }

    /// The byte region the texts are stored in.
    pub closed spec fn bytes(&self) -> Region<u8> {
        self.data
    }

    /// For each text, the number of bytes stored up to and including it.
    pub closed spec fn offsets(&self) -> Seq<usize> {
        self.idx@
    }

    closed spec fn start_of(&self, i: int) -> int {
        if i == 0 {
            0
        } else {
            self.idx@[i - 1] as int
        }
    }

    pub closed spec fn inv(&self) -> bool {
        let encs = encodings(self.texts@);
        &&& self.data.wf()
        &&& self.idx@.len() == self.texts@.len()
        &&& self.data@ == concat(encs)
        &&& self.data@.len() == weights(self.texts@.map_values(|t: Seq<char>| Val::Text(t)))
        &&& forall|i: int|
            0 <= i < self.idx@.len() ==> #[trigger] self.idx@[i] == concat(encs.take(i + 1)).len()
        &&& forall|i: int|
            0 <= i < self.idx@.len() ==> self.data.in_one_segment(
                self.start_of(i),
                #[trigger] self.idx@[i] as int,
            )
    }

    /// The byte region holds the UTF-8 encodings of the texts, end to end.
    pub proof fn lemma_bytes_hold_texts(&self)
        requires
            self.inv(),
        ensures
            self.bytes().wf(),
            self.bytes()@ == concat(encodings(self.texts())),
    {
    }

    /// The offsets never decrease, and there is one per text.
    pub proof fn lemma_offsets_monotone(&self)
        requires
            self.inv(),
        ensures
            self.offsets().len() == self.texts().len(),
            forall|i: int|
                0 <= i < self.offsets().len() ==> #[trigger] self.offsets()[i] == concat(
                    encodings(self.texts()).take(i + 1),
                ).len(),
            forall|i: int, j: int|
                0 <= i <= j < self.offsets().len() ==> self.offsets()[i] <= self.offsets()[j],
    {
        let encs = encodings(self.texts@);
        assert forall|i: int, j: int|
            0 <= i <= j < self.offsets().len() implies self.offsets()[i] <= self.offsets()[j] by {
            let a = encs.take(i + 1);
            let b = encs.subrange(i + 1, j + 1);
            assert(encs.take(j + 1) =~= a + b);
            lemma_concat_append(a, b);
            assert(self.idx@[i] == concat(a).len());
            assert(self.idx@[j] == concat(encs.take(j + 1)).len());
        }
    }
}

impl Columnar for String {
    type Buf = StringBuf;
}

impl ColumnarBuf<String> for StringBuf {
    type ReadItem<'a> = &'a str;

    open spec fn vals(&self) -> Seq<Val> {
        self.texts().map_values(|t: Seq<char>| Val::Text(t))
    }

    open spec fn wf(&self) -> bool {
        self.inv()
    }

    open spec fn read_val<'a>(r: &&'a str) -> Val {
        Val::Text(r@)
    }

    open spec fn sized_for(&self, s: usize) -> bool {
        self.bytes().limit() == TEXT_SEGMENT_LIMIT && self.bytes().capacity() >= s
    }

    fn copy(&mut self, c: &str) {
        let ghost encs = encodings(self.texts@);
        let ghost n: int = self.idx@.len() as int;
        let bytes = c.as_bytes();
        proof {
            lemma_weights_push(self.vals(), Val::Text(c@));
        }
        self.data.copy_slice(bytes);
        let len = self.data.len();
        self.idx.push(len);
        self.texts = Ghost(self.texts@.push(c@));
        proof {
            let new_encs = encodings(self.texts@);
            assert(new_encs =~= encs.push(encode_utf8(c@)));
            assert(new_encs.drop_last() == encs);
            assert(concat(new_encs) == concat(encs) + encode_utf8(c@));
            assert(self.data@ =~= concat(new_encs));
            assert(self.texts@.map_values(|t: Seq<char>| Val::Text(t)) =~= old(self).vals().push(
                Val::Text(c@),
            ));
            assert(new_encs.take(n + 1) =~= new_encs);
            assert(encs.take(n) =~= encs);
            assert forall|i: int| 0 <= i < self.idx@.len() implies #[trigger] self.idx@[i]
                == concat(new_encs.take(i + 1)).len() by {
                if i < n {
                    assert(new_encs.take(i + 1) =~= encs.take(i + 1));
                }
            }
            assert forall|i: int| 0 <= i < self.idx@.len() implies self.data.in_one_segment(
                self.start_of(i),
                #[trigger] self.idx@[i] as int,
            ) by {
                if i < n {
                    assert(old(self).data.in_one_segment(old(self).start_of(i), old(self).idx@[i] as int));
                    assert(self.start_of(i) == old(self).start_of(i));
                } else {
                    if n > 0 {
                        assert(old(self).idx@[n - 1] == concat(encs.take(n)).len());
                    }
                    assert(self.start_of(i) == old(self).data@.len());
                }
            }
        }
    }

    fn idx(&self, i: usize) -> (r: &str) {
        let ghost encs = encodings(self.texts@);
        let start: usize = if i == 0 {
            0
        } else {
            self.idx[i - 1]
        };
        let end: usize = self.idx[i];
        proof {
            lemma_concat_split(encs, i as int);
            if i == 0 {
                assert(encs.take(0) =~= Seq::<Seq<u8>>::empty());
                assert(concat(Seq::<Seq<u8>>::empty()) == Seq::<u8>::empty());
            }
            assert(start == concat(encs.take(i as int)).len());
            assert(self.data.in_one_segment(self.start_of(i as int), self.idx@[i as int] as int));
        }
        let bytes = self.data.slice(start, end);
        proof {
            assert(bytes@ =~= encs[i as int]);
            assert(encs[i as int] == encode_utf8(self.texts@[i as int]));
        }
        let r = text_of(bytes).unwrap();
        proof {
            assert(r.spec_bytes() == encode_utf8(r@));
            assert(decode_of_encoding(r@) == decode_of_encoding(self.texts@[i as int]));
        }
        r
    }

    fn len(&self) -> (r: usize) {
        self.idx.len()
    }

    fn with_capacity(s: usize) -> (r: Self) {
        let idx: Vec<usize> = Vec::with_capacity(s);
        let data = Region::with_limit_and_capacity(TEXT_SEGMENT_LIMIT, s);
        let r = StringBuf { idx, data, texts: Ghost(Seq::empty()) };
        proof {
            assert(encodings(Seq::<Seq<char>>::empty()) =~= Seq::<Seq<u8>>::empty());
            assert(concat(Seq::<Seq<u8>>::empty()) == Seq::<u8>::empty());
            assert(r.vals() =~= Seq::<Val>::empty());
        }
        r
    }

    fn clear(&mut self) {
        self.idx.clear();
        self.data.clear();
        self.texts = Ghost(Seq::empty());
        proof {
            assert(encodings(Seq::<Seq<char>>::empty()) =~= Seq::<Seq<u8>>::empty());
            assert(concat(Seq::<Seq<u8>>::empty()) == Seq::<u8>::empty());
            assert(self.vals() =~= Seq::<Val>::empty());
        }
    }
}

/// Decoding the encoding of `t`, which gives `t` back.
spec fn decode_of_encoding(t: Seq<char>) -> Seq<char> {
    vstd::utf8::decode_utf8(encode_utf8(t))
}

} // verus!
