use vstd::prelude::*;

verus! {

/// One entry of the log: a numeric identifier together with a short
/// textual tag.  The log stores records of this shape; it keeps no
/// schema and no identity beyond the record's position in the file.
#[derive(Debug, Clone, PartialEq, Eq)]
pub struct Record {
    pub id: u64,
    pub tag: String,
}

/// The mathematical value of a record: the identifier and the
/// characters of the tag.
pub ghost struct RecView {
    pub id: u64,
    pub tag: Seq<char>,
}

impl View for Record {
    type V = RecView;

    open spec fn view(&self) -> RecView {
        RecView { id: self.id, tag: self.tag@ }
    }
}

/// The record views of a sequence of records, in order.
pub open spec fn views_of(rs: Seq<Record>) -> Seq<RecView> {
    rs.map_values(|r: Record| r@)
}

pub proof fn lemma_views_of_push(rs: Seq<Record>, r: Record)
    ensures
        views_of(rs.push(r)) == views_of(rs).push(r@),
{
    assert(views_of(rs.push(r)) =~= views_of(rs).push(r@));
}

} // verus!
