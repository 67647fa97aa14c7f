//! The record store: an ordered list of named port sets, selected by
//! 1-based position, grown by appending and shrunk by swap-removal.
use vstd::prelude::*;
use vstd::string::StringExecFns;

use crate::ports::{parse_ports, spec_ports};

verus! {

/// A named set of TCP ports, in the order they were written.
#[derive(Debug, PartialEq, Eq)]
pub struct Record {
    pub name: String,
    pub ports: Vec<u16>,
}

/// The mathematical value of a record: its name and its ports.
pub type RecordModel = (Seq<char>, Seq<u16>);

impl View for Record {
    type V = RecordModel;

    open spec fn view(&self) -> RecordModel {
        (self.name@, self.ports@)
    }
}

impl Record {
    pub fn new(name: String, ports: Vec<u16>) -> (r: Record)
        ensures
            r@ == (name@, ports@),
    {
        Record { name, ports }
    }
}

/// Why an operation on the store was refused; the store is then unchanged.
#[derive(Debug, Clone, Copy, PartialEq, Eq, Structural)]
pub enum StoreError {
    /// The port specification given to `add` is malformed.
    Parse,
    /// The position given is outside `[1, length]`.
    Index,
}

/// The sequence that removing position `i` of `s` leaves when the last
/// element takes its place.
pub open spec fn swap_removed<A>(s: Seq<A>, i: int) -> Seq<A> {
    s.update(i, s.last()).drop_last()
}

/// Removal by swapping: the result is one shorter, position `i` holds what
/// was last, and every other remaining position holds what it held before.
pub proof fn law_swap_remove_shape<A>(s: Seq<A>, i: int)
    requires
        0 <= i < s.len(),
    ensures
        swap_removed(s, i).len() == s.len() - 1,
        i < s.len() - 1 ==> swap_removed(s, i)[i] == s.last(),
        forall|k: int| 0 <= k < s.len() - 1 && k != i ==> #[trigger] swap_removed(s, i)[k] == s[k],
{
}

/// The records of a catalogue, in their positional order.
pub struct RecordStore {
    records: Vec<Record>,
}

impl View for RecordStore {
    type V = Seq<RecordModel>;

    closed spec fn view(&self) -> Seq<RecordModel> {
        self.records@.map_values(|r: Record| r@)
    }
}

impl RecordStore {
    /// A store holding `records`, in that order.
    pub fn from_records(records: Vec<Record>) -> (r: RecordStore)
        ensures
            r@ == records@.map_values(|x: Record| x@),
    {
        RecordStore { records }
    }

    /// The content of a fresh catalogue: one record `Office` with port 1688.
    pub fn bootstrap() -> (r: RecordStore)
        ensures
            r@ == seq![("Office"@, seq![1688u16])],
    {
        let mut records: Vec<Record> = Vec::new();
        let name = String::from_str("Office");
        let mut ports: Vec<u16> = Vec::new();
        ports.push(1688);
        records.push(Record { name, ports });
        let r = RecordStore { records };
        assert(r@ =~= seq![("Office"@, seq![1688u16])]);
        r
    }

    pub fn len(&self) -> (r: usize)
        ensures
            r == self@.len(),
    {
        self.records.len()
    }

    /// The records, in positional order.
    pub fn records(&self) -> (r: &Vec<Record>)
        ensures
            r@.map_values(|x: Record| x@) == self@,
    {
        &self.records
    }

    /// The record at 1-based position `index`.
    pub fn get(&self, index: usize) -> (r: Result<&Record, StoreError>)
        ensures
            r is Ok <==> 1 <= index <= self@.len(),
            r matches Ok(rec) ==> rec@ == self@[index - 1],
            r matches Err(e) ==> e == StoreError::Index,
    {
        if index < 1 || index > self.records.len() {
            return Err(StoreError::Index);
        }
        Ok(&self.records[index - 1])
    }

    /// Appends a record named `name` with the ports that `ports` specifies.
    /// A malformed specification leaves the store as it was.
    pub fn add(&mut self, name: String, ports: String) -> (r: Result<(), StoreError>)
        ensures
            r is Ok <==> spec_ports(ports@) is Some,
            r is Ok ==> final(self)@ == old(self)@.push((name@, spec_ports(ports@).unwrap())),
            r is Ok ==> final(self)@.len() == old(self)@.len() + 1
                && final(self)@.last() == (name@, spec_ports(ports@).unwrap())
                && final(self)@.take(old(self)@.len() as int) == old(self)@,
            r matches Err(e) ==> e == StoreError::Parse && final(self)@ == old(self)@,
    {
        match parse_ports(ports) {
            Ok(list) => {
                let rec = Record { name, ports: list };
                self.records.push(rec);
                assert(self@ =~= old(self)@.push(rec@));
                assert(self@.take(old(self)@.len() as int) =~= old(self)@);
                Ok(())
            },
            Err(_) => Err(StoreError::Parse),
        }
    }

    /// Removes the record at 1-based position `index` by moving the last
    /// record into its place: the order of the records does not survive.
    /// A position outside `[1, length]` leaves the store as it was.
    pub fn delete(&mut self, index: usize) -> (r: Result<(), StoreError>)
        ensures
            r is Ok <==> 1 <= index <= old(self)@.len(),
            r is Ok ==> final(self)@ == swap_removed(old(self)@, index - 1),
            r matches Err(e) ==> e == StoreError::Index && final(self)@ == old(self)@,
    {
        if index < 1 || index > self.records.len() {
            return Err(StoreError::Index);
        }
        self.records.swap_remove(index - 1);
        assert(self@ =~= swap_removed(old(self)@, index - 1));
        Ok(())
    }
}

} // verus!
