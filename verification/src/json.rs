//! The search tree as the JSON object handed to the learning model.

use vstd::prelude::*;
use crate::text::{decimal, push_decimal};

verus! {

/// One node as the model sees it: its index and the text of its two
/// coordinates, already scaled to the unit square.
pub struct NodeEntry {
    pub idx: usize,
    pub x: String,
    pub y: String,
}

/// The nodes of the tree, in the order in which they are listed.
pub struct TreeFmt {
    pub entries: Vec<NodeEntry>,
}

/// `"idx": [x, y]`.
pub open spec fn entry_text(idx: usize, x: Seq<char>, y: Seq<char>) -> Seq<char> {
    seq!['"'] + decimal(idx as nat) + seq!['"', ':', ' ', '['] + x + seq![',', ' '] + y + seq![']']
}

/// The members for the first `n` entries, the root (index 0) left out,
/// separated by `, `.
pub open spec fn members_text(es: Seq<(usize, Seq<char>, Seq<char>)>, n: nat) -> Seq<char>
    decreases n,
{
    if n == 0 {
        Seq::empty()
    } else {
        let rest = members_text(es, (n - 1) as nat);
        let e = es[n - 1];
        if e.0 == 0 {
            rest
        } else if rest.len() == 0 {
            entry_text(e.0, e.1, e.2)
        } else {
            rest + seq![',', ' '] + entry_text(e.0, e.1, e.2)
        }
    }
}

/// The entries' indices and coordinate texts.
pub open spec fn entries_view(es: Seq<NodeEntry>) -> Seq<(usize, Seq<char>, Seq<char>)> {
    es.map_values(|e: NodeEntry| (e.idx, e.x@, e.y@))
}

impl TreeFmt {
    /// The tree as a JSON object mapping each index but the root's to its
    /// coordinates: `{"1": [x, y], "2": [x, y]}`.
    pub fn to_json(&self) -> (s: String)
        ensures
            s@ == seq!['{'] + members_text(entries_view(self.entries@), self.entries.len() as nat) + seq!['}'],
    {
        let ghost es = entries_view(self.entries@);
        let mut body = String::new();
        let mut first = true;
        let mut i: usize = 0;
        while i < self.entries.len()
            invariant
                i <= self.entries.len(),
                es == entries_view(self.entries@),
                body@ == members_text(es, i as nat),
                first <==> body@.len() == 0,
            decreases self.entries.len() - i,
        {
            let e = &self.entries[i];
            proof {
                assert(es[i as int] == (e.idx, e.x@, e.y@));
            }
            if e.idx != 0 {
                let ghost before = body@;
                if !first {
                    body.append(", ");
                }
                body.append("\"");
                push_decimal(&mut body, e.idx);
                body.append("\": [");
                body.append(e.x.as_str());
                body.append(", ");
                body.append(e.y.as_str());
                body.append("]");
                proof {
                    reveal_strlit(", ");
                    reveal_strlit("\"");
                    reveal_strlit("\": [");
                    reveal_strlit("]");
                    if before.len() == 0 {
                        assert(body@ =~= entry_text(e.idx, e.x@, e.y@));
                    } else {
                        assert(body@ =~= before + seq![',', ' '] + entry_text(e.idx, e.x@, e.y@));
                    }
                }
                first = false;
            }
            i = i + 1;
        }
        let mut s = String::new();
        s.append("{");
        s.append(body.as_str());
        s.append("}");
        proof {
            reveal_strlit("{");
            reveal_strlit("}");
            assert(s@ =~= seq!['{'] + members_text(es, self.entries.len() as nat) + seq!['}']);
        }
        s
    }
}

} // verus!
