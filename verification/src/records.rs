//! The two value types of the store: the key of a time series and one sample.

use vstd::prelude::*;

verus! {

/// The key of one time series: which charge point, and which of its
/// properties, the series observes. Equality and hashing are structural.
#[derive(Debug, Hash, Eq, PartialEq)]
pub struct Table {
    pub charge_point: String,
    pub property: String,
}

/// One observed sample: a timestamp and a value, both already rendered to
/// text. Two records are equal iff both fields are equal.
#[derive(Debug, Eq, PartialEq)]
pub struct Record {
    pub timestamp: String,
    pub value: String,
}

/// The mathematical content of a [`Table`]: its two fields as character
/// sequences.
pub struct TableView {
    pub charge_point: Seq<char>,
    pub property: Seq<char>,
}

/// The mathematical content of a [`Record`]: its two fields as character
/// sequences.
pub struct ObsView {
    pub timestamp: Seq<char>,
    pub value: Seq<char>,
}

impl View for Table {
    type V = TableView;

    open spec fn view(&self) -> TableView {
        TableView { charge_point: self.charge_point@, property: self.property@ }
    }
}

impl View for Record {
    type V = ObsView;

    open spec fn view(&self) -> ObsView {
        ObsView { timestamp: self.timestamp@, value: self.value@ }
    }
}

impl Clone for Table {
    fn clone(&self) -> (r: Table)
        ensures
            r@ == self@,
    {
        Table { charge_point: self.charge_point.clone(), property: self.property.clone() }
    }
}

impl Clone for Record {
    fn clone(&self) -> (r: Record)
        ensures
            r@ == self@,
    {
        Record { timestamp: self.timestamp.clone(), value: self.value.clone() }
    }
}

impl Table {
    /// The path of this table's log file, relative to the store's root
    /// directory: `<charge_point>/<property>`, both fields used verbatim as
    /// path segments.
    pub fn path(&self) -> (p: String)
        ensures
            p@ == self@.charge_point + seq!['/'] + self@.property,
    {
        let mut p = self.charge_point.clone();
        p.append("/");
        p.append(self.property.as_str());
        proof {
            reveal_strlit("/");
            assert(p@ =~= self@.charge_point + seq!['/'] + self@.property);
        }
        p
    }

    /// Field-wise equality, usable from verified code.
    pub fn same_key(&self, other: &Table) -> (r: bool)
        ensures
            r == (self@ == other@),
    {
        let r = self.charge_point == other.charge_point && self.property == other.property;
        proof {
            if self@.charge_point == other@.charge_point && self@.property == other@.property {
                assert(self@ =~= other@);
            }
        }
        r
    }
}

impl Record {
    /// Field-wise equality, usable from verified code.
    pub fn same_record(&self, other: &Record) -> (r: bool)
        ensures
            r == (self@ == other@),
    {
        let r = self.timestamp == other.timestamp && self.value == other.value;
        proof {
            if self@.timestamp == other@.timestamp && self@.value == other@.value {
                assert(self@ =~= other@);
            }
        }
        r
    }
}

} // verus!
