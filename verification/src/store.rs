use crate::codec::{put_u32, put_u64, read_u32, read_u64, u64_le};
use crate::error::StoreError;
use crate::format::{
    decode, decode_record, decode_records, decode_vector, encode, encode_header, encode_records,
    encode_vector, is_index_file, lemma_image_is_unique, lemma_round_trip, record_len,
    record_offset, stored_dimension, HEADER_LEN, MAGIC, VERSION,
};
use crate::model::{ids_of, well_formed, Record, StoreModel};
use crate::rank::{
    in_range, lemma_nearest_is_best, lemma_nearest_len, lemma_nearest_of_none,
    lemma_nearest_sorted, nearest, nearest_positions, pick, positions, ranks_before, result_len,
};
use vstd::prelude::*;

verus! {

/// What creating a store gives: an empty store of the given dimension, or a
/// refusal of the dimension zero.
pub open spec fn created(dimension: u64) -> Result<StoreModel, StoreError> {
    if dimension == 0 {
        Err(StoreError::InvalidDimension)
    } else {
        Ok(StoreModel { dimension, entries: Seq::empty() })
    }
}

/// What inserting gives: the store with `(id, vector)` appended, or a
/// refusal of a vector whose length is not the store's dimension.
pub open spec fn inserted(store: StoreModel, id: u64, vector: Seq<u32>) -> Result<
    StoreModel,
    StoreError,
> {
    if vector.len() != store.dimension {
        Err(StoreError::DimensionMismatch)
    } else {
        Ok(StoreModel { dimension: store.dimension, entries: store.entries.push(Record { id, vector }) })
    }
}

/// A dimension was expected and `dimension` is another one.
pub open spec fn conflicts(expected: Option<u64>, dimension: u64) -> bool {
    match expected {
        Some(d) => d != dimension,
        None => false,
    }
}

/// What loading gives. Bytes that are not a well-formed image are corrupt.
/// A well-formed image of another dimension than the expected one is a
/// mismatch. Otherwise the store is the one that the image holds.
pub open spec fn loaded(bytes: Seq<u8>, expected: Option<u64>) -> Result<StoreModel, StoreError> {
    if !is_index_file(bytes) {
        Err(StoreError::CorruptFile)
    } else if conflicts(expected, stored_dimension(bytes)) {
        Err(StoreError::DimensionMismatch)
    } else {
        Ok(decode(bytes))
    }
}

/// The identifiers that a search returns: those of the nearest entries,
/// nearest first.
pub open spec fn found_ids(store: StoreModel, distances: Seq<u32>, k: nat) -> Seq<u64> {
    pick(ids_of(store.entries), nearest(distances, k))
}

/// The distances that a search returns: those of the nearest entries,
/// nearest first.
pub open spec fn found_distances(distances: Seq<u32>, k: nat) -> Seq<u32> {
    pick(distances, nearest(distances, k))
}

/// What a search gives, where `distances` holds the distance of each entry
/// to the query: the identifiers and the distances of the `k` nearest
/// entries, or of all entries where there are fewer. A query whose length
/// is not the store's dimension is refused, and so is a list that does not
/// hold one distance for each entry.
pub open spec fn searched(store: StoreModel, query: Seq<u32>, distances: Seq<u32>, k: nat) -> Result<
    (Seq<u64>, Seq<u32>),
    StoreError,
> {
    if query.len() != store.dimension || distances.len() != store.entries.len() {
        Err(StoreError::DimensionMismatch)
    } else {
        Ok((found_ids(store, distances, k), found_distances(distances, k)))
    }
}

/// One stored entry. The components of the vector are kept as IEEE-754
/// binary32 bit patterns.
#[derive(Debug)]
struct Entry {
    id: u64,
    vector: Vec<u32>,
}

impl View for Entry {
    type V = Record;

    closed spec fn view(&self) -> Record {
        Record { id: self.id, vector: self.vector@ }
    }
}

/// An in-memory collection of vectors of one fixed dimension, each under a
/// 64-bit identifier, in insertion order.
#[derive(Debug)]
pub struct VectorStore {
    dimension: u64,
    entries: Vec<Entry>,
}

impl View for VectorStore {
    type V = StoreModel;

    closed spec fn view(&self) -> StoreModel {
        StoreModel { dimension: self.dimension, entries: self.entries@.map_values(|e: Entry| e@) }
    }
}

impl VectorStore {
    #[verifier::type_invariant]
    spec fn inv(self) -> bool {
        well_formed(self@)
    }

    /// An empty store of the given dimension; a dimension of zero is
    /// refused.
    pub fn new(dimension: u64) -> (r: Result<VectorStore, StoreError>)
        ensures
            match r {
                Ok(store) => created(dimension) == Ok::<StoreModel, StoreError>(store@),
                Err(e) => created(dimension) == Err::<StoreModel, StoreError>(e),
            },
    {
        if dimension == 0 {
            return Err(StoreError::InvalidDimension);
        }
        let store = VectorStore { dimension, entries: Vec::new() };
        assert(store@.entries =~= Seq::empty());
        Ok(store)
    }

    /// The length that every vector of this store has.
    pub fn dimension(&self) -> (d: u64)
        ensures
            d == self@.dimension,
            well_formed(self@),
    {
        proof {
            use_type_invariant(self);
        }
        self.dimension
    }

    /// The number of entries.
    pub fn len(&self) -> (n: usize)
        ensures
            n == self@.entries.len(),
            well_formed(self@),
    {
        proof {
            use_type_invariant(self);
        }
        self.entries.len()
    }

    /// The identifier of the entry at `position`, if there is one.
    pub fn id(&self, position: usize) -> (r: Option<u64>)
        ensures
            r == if position < self@.entries.len() {
                Some(self@.entries[position as int].id)
            } else {
                None
            },
    {
        if position < self.entries.len() {
            Some(self.entries[position].id)
        } else {
            None
        }
    }

    /// The vector of the entry at `position`, if there is one.
    pub fn vector(&self, position: usize) -> (r: Option<&[u32]>)
        ensures
            match r {
                Some(v) => position < self@.entries.len() && v@ == self@.entries[position as int].vector,
                None => position >= self@.entries.len(),
            },
    {
        if position < self.entries.len() {
            Some(self.entries[position].vector.as_slice())
        } else {
            None
        }
    }

    /// Appends `(id, vector)`. A vector whose length is not the store's
    /// dimension is refused and the store stays as it was. Identifiers are
    /// not compared: an identifier may occur more than once.
    pub fn insert(&mut self, id: u64, vector: &[u32]) -> (r: Result<(), StoreError>)
        ensures
            match r {
                Ok(()) => inserted(old(self)@, id, vector@) == Ok::<StoreModel, StoreError>(
                    final(self)@,
                ),
                Err(e) => inserted(old(self)@, id, vector@) == Err::<StoreModel, StoreError>(e)
                    && final(self)@ == old(self)@,
            },
    {
        proof {
            use_type_invariant(&*self);
        }
        if vector.len() as u64 != self.dimension {
            return Err(StoreError::DimensionMismatch);
        }
        let entry = Entry { id, vector: copy_bits(vector) };
        let mut entries: Vec<Entry> = Vec::new();
        std::mem::swap(&mut entries, &mut self.entries);
        entries.push(entry);
        proof {
            assert(entries@.len() == entries.len());
            assert(entries@.map_values(|e: Entry| e@) =~= old(self)@.entries.push(
                Record { id, vector: vector@ },
            ));
        }
        self.entries = entries;
        Ok(())
    }

    /// The file image of the store: the header, then one record for each
    /// entry in insertion order. Loading the image gives the store back.
    pub fn serialize(&self) -> (image: Vec<u8>)
        ensures
            image@ == encode(self@),
            loaded(image@, None) == Ok::<StoreModel, StoreError>(self@),
            loaded(image@, Some(self@.dimension)) == Ok::<StoreModel, StoreError>(self@),
    {
        proof {
            use_type_invariant(self);
            lemma_round_trip(self@);
        }
        let count = self.entries.len();
        let ghost header = encode_header(self.dimension, count as u64);
        let mut image: Vec<u8> = Vec::new();
        put_u32(&mut image, MAGIC);
        put_u32(&mut image, VERSION);
        put_u64(&mut image, self.dimension);
        put_u64(&mut image, count as u64);
        assert(image@ =~= header + encode_records(self@.entries.take(0)));
        let mut i: usize = 0;
        while i < count
            invariant
                count == self.entries@.len(),
                0 <= i <= count,
                image@ == header + encode_records(self@.entries.take(i as int)),
            decreases count - i,
        {
            let entry = &self.entries[i];
            let ghost done = image@;
            let ghost record = self@.entries[i as int];
            assert(record == entry@);
            put_u64(&mut image, entry.id);
            let width = entry.vector.len();
            let mut c: usize = 0;
            assert(image@ =~= done + (u64_le(entry.id) + encode_vector(
                entry.vector@.take(0),
            )));
            while c < width
                invariant
                    width == entry.vector@.len(),
                    0 <= c <= width,
                    image@ == done + (u64_le(entry.id) + encode_vector(
                        entry.vector@.take(c as int),
                    )),
                decreases width - c,
            {
                put_u32(&mut image, entry.vector[c]);
                proof {
                    let next = entry.vector@.take(c + 1);
                    assert(next.drop_last() =~= entry.vector@.take(c as int));
                    assert(image@ =~= done + (u64_le(entry.id) + encode_vector(next)));
                }
                c = c + 1;
            }
            proof {
                assert(entry.vector@.take(width as int) =~= entry.vector@);
                let next = self@.entries.take(i + 1);
                assert(next.drop_last() =~= self@.entries.take(i as int));
                assert(next.last() == record);
                assert(image@ =~= header + encode_records(next));
            }
            i = i + 1;
        }
        assert(self@.entries.take(count as int) =~= self@.entries);
        image
    }

    /// Reads a store from a file image. Bytes that are not a well-formed
    /// image are refused as corrupt. A well-formed image whose dimension
    /// differs from the expected one is refused as a mismatch; with no
    /// expectation the image's dimension is taken.
    pub fn load(bytes: &[u8], expected: Option<u64>) -> (r: Result<VectorStore, StoreError>)
        ensures
            match r {
                Ok(store) => loaded(bytes@, expected) == Ok::<StoreModel, StoreError>(store@),
                Err(e) => loaded(bytes@, expected) == Err::<StoreModel, StoreError>(e),
            },
    {
        let n = bytes.len();
        if n < HEADER_LEN {
            return Err(StoreError::CorruptFile);
        }
        let magic = read_u32(bytes, 0);
        let version = read_u32(bytes, 4);
        let dimension = read_u64(bytes, 8);
        let count = read_u64(bytes, 16);
        if magic != MAGIC || version != VERSION || dimension == 0 {
            return Err(StoreError::CorruptFile);
        }
        let body: u64 = (n - HEADER_LEN) as u64;
        let record: u128 = 8 + 4 * (dimension as u128);
        if record > body as u128 {
            if count != 0 || body != 0 {
                assert(count * record_len(dimension) != body) by (nonlinear_arith)
                    requires
                        count != 0 || body != 0,
                        count >= 0,
                        record_len(dimension) > body,
                        body >= 0,
                ;
                return Err(StoreError::CorruptFile);
            }
        } else {
            assert(count * record <= 0xffff_ffff_ffff_ffff * 0xffff_ffff_ffff_ffff)
                by (nonlinear_arith)
                requires
                    0 <= count <= 0xffff_ffff_ffff_ffff,
                    0 <= record <= 0xffff_ffff_ffff_ffff,
            ;
            if (count as u128) * record != body as u128 {
                return Err(StoreError::CorruptFile);
            }
        }
        assert(count * record_len(dimension) == body) by (nonlinear_arith)
            requires
                record == record_len(dimension),
                (count == 0 && body == 0) || count * record == body,
        ;
        assert(is_index_file(bytes@));
        match expected {
            Some(d) => {
                if d != dimension {
                    return Err(StoreError::DimensionMismatch);
                }
            },
            None => {},
        }
        let mut entries: Vec<Entry> = Vec::new();
        if count > 0 {
            assert(count <= body && record <= body) by (nonlinear_arith)
                requires
                    count * record == body,
                    count > 0,
                    record >= 8,
            ;
            let step: usize = record as usize;
            let width: usize = dimension as usize;
            let total: usize = count as usize;
            let mut at: usize = HEADER_LEN;
            let mut i: usize = 0;
            assert(entries@.map_values(|e: Entry| e@) =~= decode_records(bytes@, dimension, 0));
            while i < total
                invariant
                    n == bytes@.len(),
                    step == record_len(dimension),
                    width == dimension,
                    n == HEADER_LEN + total * step,
                    0 <= i <= total,
                    at == record_offset(dimension, i as int),
                    entries@.len() == i,
                    entries@.map_values(|e: Entry| e@) == decode_records(
                        bytes@,
                        dimension,
                        i as nat,
                    ),
                decreases total - i,
            {
                assert(at + step <= n) by (nonlinear_arith)
                    requires
                        at == HEADER_LEN + i * step,
                        n == HEADER_LEN + total * step,
                        i < total,
                        step >= 0,
                ;
                let id = read_u64(bytes, at);
                let mut vector: Vec<u32> = Vec::new();
                let mut c: usize = 0;
                assert(vector@ =~= decode_vector(bytes@, at + 8, dimension).take(0));
                while c < width
                    invariant
                        n == bytes@.len(),
                        step == 8 + 4 * width,
                        width == dimension,
                        at + step <= n,
                        0 <= c <= width,
                        vector@ == decode_vector(bytes@, at + 8, dimension).take(c as int),
                    decreases width - c,
                {
                    let bits = read_u32(bytes, at + 8 + 4 * c);
                    vector.push(bits);
                    assert(vector@ =~= decode_vector(bytes@, at + 8, dimension).take(c + 1));
                    c = c + 1;
                }
                assert(vector@ =~= decode_vector(bytes@, at + 8, dimension));
                let entry = Entry { id, vector };
                assert(entry@ == decode_record(bytes@, dimension, i as int));
                let ghost read = entries@;
                entries.push(entry);
                proof {
                    let now = entries@.map_values(|e: Entry| e@);
                    assert(entries@.len() == i + 1);
                    assert forall|j: int| 0 <= j <= i implies now[j] == decode_record(
                        bytes@,
                        dimension,
                        j,
                    ) by {
                        if j < i {
                            assert(entries@[j] == read[j]);
                            assert(read.map_values(|e: Entry| e@)[j] == read[j]@);
                        }
                    }
                    assert(now =~= decode_records(bytes@, dimension, (i + 1) as nat));
                }
                assert(at + step == record_offset(dimension, i + 1)) by (nonlinear_arith)
                    requires
                        at == HEADER_LEN + i * step,
                        step == record_len(dimension),
                        record_offset(dimension, i + 1) == HEADER_LEN + (i + 1) * record_len(
                            dimension,
                        ),
                ;
                at = at + step;
                i = i + 1;
            }
        } else {
            assert(entries@.map_values(|e: Entry| e@) =~= decode_records(bytes@, dimension, 0));
        }
        let store = VectorStore { dimension, entries };
        assert(store@ == decode(bytes@));
        Ok(store)
    }

    /// The `k` nearest entries for a query, nearest first: their identifiers
    /// and their distances. `distances` holds, for each entry in insertion
    /// order, the bit pattern of its squared Euclidean distance to the query;
    /// for distances that are not negative the order of the bit patterns
    /// is the order of the numbers. Of two entries at the same distance the
    /// one inserted earlier comes first. With fewer than `k` entries all of
    /// them are returned. A query whose length is not the store's dimension,
    /// or a list that does not hold one distance for each entry, is refused.
    pub fn search(&self, query: &[u32], distances: &[u32], k: usize) -> (r: Result<
        (Vec<u64>, Vec<u32>),
        StoreError,
    >)
        ensures
            match r {
                Ok((ids, dists)) => searched(self@, query@, distances@, k as nat) == Ok::<
                    (Seq<u64>, Seq<u32>),
                    StoreError,
                >((ids@, dists@)),
                Err(e) => searched(self@, query@, distances@, k as nat) == Err::<
                    (Seq<u64>, Seq<u32>),
                    StoreError,
                >(e),
            },
    {
        if query.len() as u64 != self.dimension || distances.len() != self.entries.len() {
            return Err(StoreError::DimensionMismatch);
        }
        let best = nearest_positions(distances, k);
        let ghost order = nearest(distances@, k as nat);
        proof {
            lemma_nearest_sorted(distances@, k as nat);
            assert(positions(best@).len() == best@.len());
        }
        let mut ids: Vec<u64> = Vec::new();
        let mut dists: Vec<u32> = Vec::new();
        let mut x: usize = 0;
        while x < best.len()
            invariant
                0 <= x <= best@.len(),
                positions(best@) == order,
                in_range(distances@, order),
                distances@.len() == self.entries@.len(),
                self@.entries.len() == self.entries@.len(),
                ids@ == pick(ids_of(self@.entries), order.take(x as int)),
                dists@ == pick(distances@, order.take(x as int)),
            decreases best@.len() - x,
        {
            let p = best[x];
            assert(positions(best@)[x as int] == p as int);
            assert(order[x as int] == p);
            ids.push(self.entries[p].id);
            dists.push(distances[p]);
            proof {
                assert(self@.entries[p as int] == self.entries@[p as int]@);
                assert(ids@ =~= pick(ids_of(self@.entries), order.take(x + 1)));
                assert(dists@ =~= pick(distances@, order.take(x + 1)));
            }
            x = x + 1;
        }
        assert(order.take(best@.len() as int) =~= order);
        Ok((ids, dists))
    }
}

/// A vector with the elements of `bits`.
fn copy_bits(bits: &[u32]) -> (v: Vec<u32>)
    ensures
        v@ == bits@,
{
    let mut v: Vec<u32> = Vec::new();
    let mut i: usize = 0;
    while i < bits.len()
        invariant
            0 <= i <= bits@.len(),
            v@ == bits@.take(i as int),
        decreases bits@.len() - i,
    {
        v.push(bits[i]);
        assert(v@ =~= bits@.take(i + 1));
        i = i + 1;
    }
    assert(bits@.take(bits@.len() as int) =~= bits@);
    v
}

/// A store that was created is well formed.
pub proof fn lemma_created_is_well_formed(dimension: u64)
    ensures
        created(dimension) matches Ok(store) ==> well_formed(store),
{
}

/// Inserting keeps a store well formed: no vector of another length than
/// the dimension gets in.
pub proof fn lemma_inserted_is_well_formed(store: StoreModel, id: u64, vector: Seq<u32>)
    requires
        well_formed(store),
        store.entries.len() < u64::MAX,
    ensures
        inserted(store, id, vector) matches Ok(next) ==> well_formed(next),
{
}

/// Whatever loads is a well-formed store, and serializing it gives the
/// bytes that it was loaded from.
pub proof fn lemma_serialize_of_loaded(bytes: Seq<u8>, expected: Option<u64>)
    ensures
        loaded(bytes, expected) matches Ok(store) ==> well_formed(store) && encode(store) == bytes,
{
    if is_index_file(bytes) {
        lemma_image_is_unique(bytes);
    }
}

/// Loading what was serialized gives the store back: the same dimension
/// and the same entries in the same order, every identifier and every
/// component bit for bit. This holds with no expected dimension and with
/// the store's own.
pub proof fn lemma_load_of_serialized(store: StoreModel)
    requires
        well_formed(store),
    ensures
        loaded(encode(store), None) == Ok::<StoreModel, StoreError>(store),
        loaded(encode(store), Some(store.dimension)) == Ok::<StoreModel, StoreError>(store),
{
    lemma_round_trip(store);
}

/// A search in a store without entries succeeds with no results, whatever
/// `k` is.
pub proof fn lemma_search_of_empty(dimension: u64, query: Seq<u32>, k: nat)
    requires
        dimension > 0,
        query.len() == dimension,
    ensures
        created(dimension) matches Ok(store) && searched(store, query, Seq::empty(), k) == Ok::<
            (Seq<u64>, Seq<u32>),
            StoreError,
        >((Seq::empty(), Seq::empty())),
{
    let store = created(dimension)->Ok_0;
    let none = Seq::<u32>::empty();
    lemma_nearest_of_none(none, k);
    assert(found_ids(store, none, k) =~= Seq::<u64>::empty());
    assert(found_distances(none, k) =~= Seq::<u32>::empty());
}

/// A search returns `k` results where the store holds at least `k` entries
/// and one result for each entry where it holds fewer: never more than
/// there are entries.
pub proof fn lemma_search_len(store: StoreModel, query: Seq<u32>, distances: Seq<u32>, k: nat)
    ensures
        searched(store, query, distances, k) matches Ok(found) ==> {
            &&& found.0.len() == result_len(store.entries.len(), k)
            &&& found.1.len() == result_len(store.entries.len(), k)
            &&& k >= store.entries.len() ==> found.0.len() == store.entries.len()
        },
{
    lemma_nearest_len(distances, k);
}

/// The results of a search come by non-decreasing distance, and of two
/// results at the same distance the one that was inserted earlier comes
/// first. Each result is the identifier and the distance of one entry.
pub proof fn lemma_search_sorted(store: StoreModel, query: Seq<u32>, distances: Seq<u32>, k: nat)
    ensures
        searched(store, query, distances, k) matches Ok(found) ==> {
            let from = nearest(distances, k);
            &&& from.len() == found.0.len() == found.1.len()
            &&& forall|x: int|
                0 <= x < from.len() ==> {
                    &&& 0 <= #[trigger] from[x] < store.entries.len()
                    &&& found.0[x] == store.entries[from[x]].id
                    &&& found.1[x] == distances[from[x]]
                }
            &&& forall|x: int, y: int|
                0 <= x < y < from.len() ==> #[trigger] found.1[x] <= #[trigger] found.1[y]
            &&& forall|x: int, y: int|
                0 <= x < y < from.len() && found.1[x] == found.1[y] ==> #[trigger] from[x]
                    < #[trigger] from[y]
        },
{
    lemma_nearest_sorted(distances, k);
}

/// The results of a search are the nearest entries: no entry is returned
/// twice, and every entry that is not returned is farther from the query
/// than every entry that is, or as far and inserted later.
pub proof fn lemma_search_finds_nearest(
    store: StoreModel,
    query: Seq<u32>,
    distances: Seq<u32>,
    k: nat,
)
    ensures
        searched(store, query, distances, k) is Ok ==> {
            let from = nearest(distances, k);
            &&& forall|x: int, y: int|
                0 <= x < y < from.len() ==> #[trigger] from[x] != #[trigger] from[y]
            &&& forall|x: int, q: int|
                0 <= x < from.len() && 0 <= q < store.entries.len() && !from.contains(q)
                    ==> #[trigger] ranks_before(distances, from[x], q)
        },
{
    lemma_nearest_is_best(distances, k);
}

} // verus!
