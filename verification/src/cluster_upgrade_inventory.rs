//! The inventory of a rolling upgrade, and the preview of its plan.
//!
//! The operator writes down how each node is reached and actuated, and which nodes
//! are asked first. The document is checked as a whole before any node is touched.
use vstd::prelude::*;
use vstd::slice::slice_subrange;
use vstd::string::*;
use crate::cluster_upgrade::{first_master, ClusterView, NodeRole, NodeView};
use crate::cluster_upgrade_driver::{ActuationTarget, Inventory};
use crate::idset::{before, lemma_text_lt_total, lemma_text_lt_trans, text_lt};
use crate::text::{has_part, lemma_parts, append_number, chars_of, copy_str, decimal, first_at, last_at, law_last_at,
    lemma_decimal_round_trip, lemma_decimal_value, opt_string, parse_unsigned, quote, quoted,
    rfind_char, string_of, trim, trimmed, unsigned_of};

verus! {

/// The document as it is written.
#[derive(Debug)]
pub struct RawInventory {
    /// The ids of the nodes that are asked first.
    pub seeds: Vec<String>,
    /// The nodes.
    pub nodes: Vec<RawNode>,
}

/// One node as it is written.
#[derive(Debug)]
pub struct RawNode {
    /// The announce id.
    pub id: String,
    /// The address for commands.
    pub resp_addr: String,
    /// The password, where the node asks for one.
    pub auth: Option<String>,
    /// The SSH target.
    pub ssh_target: String,
    /// The arguments that name the new binary.
    pub upgrade_source: String,
}

/// Why an inventory is refused.
#[derive(Debug)]
pub enum InventoryError {
    /// The file could not be read.
    Read {
        /// The path.
        path: String,
        /// The failure.
        detail: String,
    },
    /// The document does not have the form of an inventory.
    Malformed(String),
    /// There is no node.
    NoNodes,
    /// Two nodes have the same id.
    DuplicateId(String),
    /// A field is empty.
    EmptyField {
        /// The node, or the position of its entry where the id itself is empty.
        id: String,
        /// The field.
        field: &'static str,
    },
    /// An address is no `host:port`.
    BadAddr {
        /// The node.
        id: String,
        /// The address.
        addr: String,
    },
    /// There is no seed.
    NoSeed,
    /// A seed is no node.
    UnknownSeed(String),
}

/// What is wrong with a document.
pub enum Problem {
    /// It does not have the form of an inventory.
    Malformed(Seq<char>),
    /// There is no node.
    NoNodes,
    /// Two nodes have this id.
    DuplicateId(Seq<char>),
    /// A field of a node is empty.
    EmptyField(Seq<char>, Seq<char>),
    /// A node has this address, which is no `host:port`.
    BadAddr(Seq<char>, Seq<char>),
    /// There is no seed.
    NoSeed,
    /// This seed is no node.
    UnknownSeed(Seq<char>),
    /// The file at a path could not be read.
    Unreadable(Seq<char>, Seq<char>),
}

impl InventoryError {
    /// What is wrong.
    pub open spec fn problem(self) -> Problem {
        match self {
            InventoryError::Read { path, detail } => Problem::Unreadable(path@, detail@),
            InventoryError::Malformed(d) => Problem::Malformed(d@),
            InventoryError::NoNodes => Problem::NoNodes,
            InventoryError::DuplicateId(id) => Problem::DuplicateId(id@),
            InventoryError::EmptyField { id, field } => Problem::EmptyField(id@, field@),
            InventoryError::BadAddr { id, addr } => Problem::BadAddr(id@, addr@),
            InventoryError::NoSeed => Problem::NoSeed,
            InventoryError::UnknownSeed(s) => Problem::UnknownSeed(s@),
        }
    }

    /// The message for the operator.
    pub fn message(&self) -> (r: String)
        ensures
            r@ == problem_text(self.problem()),
    {
        let mut r: String;
        match self {
            InventoryError::Read { path, detail } => {
                r = "reading the inventory file ".to_owned();
                r.append(path.as_str());
                r.append(": ");
                r.append(detail.as_str());
            },
            InventoryError::Malformed(d) => {
                r = "parsing the inventory TOML: ".to_owned();
                r.append(d.as_str());
            },
            InventoryError::NoNodes => {
                r = "the inventory has no nodes (add at least one [[node]] entry)".to_owned();
            },
            InventoryError::DuplicateId(id) => {
                r = "duplicate node id ".to_owned();
                r.append(quote(id.as_str()).as_str());
                r.append(" (each [[node]] id must be unique)");
            },
            InventoryError::EmptyField { id, field } => {
                r = "node ".to_owned();
                r.append(quote(id.as_str()).as_str());
                r.append(" has an empty ");
                r.append(*field);
                r.append(" (it is required)");
            },
            InventoryError::BadAddr { id, addr } => {
                r = "node ".to_owned();
                r.append(quote(id.as_str()).as_str());
                r.append(" has a malformed resp_addr ");
                r.append(quote(addr.as_str()).as_str());
                r.append(" (expected host:port with a 1-65535 port)");
            },
            InventoryError::NoSeed => {
                r =
                "the inventory has no seeds (add at least one node id to `seeds`)".to_owned();
            },
            InventoryError::UnknownSeed(s) => {
                r = "seed ".to_owned();
                r.append(quote(s.as_str()).as_str());
                r.append(" is not a declared node id");
            },
        }
        r
    }
}

/// How a problem is told.
pub open spec fn problem_text(p: Problem) -> Seq<char> {
    match p {
        Problem::Unreadable(path, detail) => "reading the inventory file "@ + path + ": "@ + detail,
        Problem::Malformed(d) => "parsing the inventory TOML: "@ + d,
        Problem::NoNodes => "the inventory has no nodes (add at least one [[node]] entry)"@,
        Problem::DuplicateId(id) => "duplicate node id "@ + quoted(id)
            + " (each [[node]] id must be unique)"@,
        Problem::EmptyField(id, field) => "node "@ + quoted(id) + " has an empty "@ + field
            + " (it is required)"@,
        Problem::BadAddr(id, addr) => "node "@ + quoted(id) + " has a malformed resp_addr "@
            + quoted(addr) + " (expected host:port with a 1-65535 port)"@,
        Problem::NoSeed => "the inventory has no seeds (add at least one node id to `seeds`)"@,
        Problem::UnknownSeed(s) => "seed "@ + quoted(s) + " is not a declared node id"@,
    }
}

/// Whether an address is a host that is not empty and a port from 1 to 65535,
/// split at the last colon.
pub open spec fn valid_addr(a: Seq<char>) -> bool {
    let k = last_at(a, ':');
    k > 0 && match unsigned_of(a.skip(k + 1), u16::MAX as nat) {
        Some(p) => p != 0,
        None => false,
    }
}

/// Whether an address is a well-formed `host:port`.
pub fn is_valid_host_port(addr: &[char]) -> (r: bool)
    ensures
        r == valid_addr(addr@),
{
    match rfind_char(addr, ':') {
        None => false,
        Some(k) => {
            if k == 0 {
                return false;
            }
            let n: usize = addr.len();
            let tail = slice_subrange(addr, k + 1, n);
            assert(tail@ =~= addr@.skip(k as int + 1));
            match parse_unsigned(tail, u16::MAX as u64) {
                Some(p) => p != 0,
                None => false,
            }
        },
    }
}

/// The trimmed ids of nodes.
pub open spec fn node_ids(nodes: Seq<RawNode>) -> Seq<Seq<char>> {
    nodes.map_values(|n: RawNode| trimmed(n.id@))
}

/// Trimmed texts.
pub open spec fn trimmed_all(v: Seq<String>) -> Seq<Seq<char>> {
    v.map_values(|s: String| trimmed(s@))
}

/// What is wrong with node `i`. An id that an earlier node has is a duplicate; a node
/// without an id is named by its position, counted from one.
pub open spec fn node_problem(nodes: Seq<RawNode>, i: int) -> Option<Problem> {
    let n = nodes[i];
    let id = trimmed(n.id@);
    if id.len() == 0 {
        Some(Problem::EmptyField(decimal((i + 1) as nat), "id"@))
    } else if node_ids(nodes).take(i).contains(id) {
        Some(Problem::DuplicateId(id))
    } else if trimmed(n.ssh_target@).len() == 0 {
        Some(Problem::EmptyField(id, "ssh_target"@))
    } else if trimmed(n.upgrade_source@).len() == 0 {
        Some(Problem::EmptyField(id, "upgrade_source"@))
    } else if !valid_addr(trimmed(n.resp_addr@)) {
        Some(Problem::BadAddr(id, n.resp_addr@))
    } else {
        None
    }
}

/// What is wrong with the first faulty node from `i` on.
pub open spec fn nodes_problem(nodes: Seq<RawNode>, i: int) -> Option<Problem>
    decreases nodes.len() - i,
{
    if i >= nodes.len() {
        None
    } else {
        match node_problem(nodes, i) {
            Some(p) => Some(p),
            None => nodes_problem(nodes, i + 1),
        }
    }
}

/// The first seed from `i` on that is no node.
pub open spec fn seeds_problem(seeds: Seq<String>, ids: Seq<Seq<char>>, i: int) -> Option<Problem>
    decreases seeds.len() - i,
{
    if i >= seeds.len() {
        None
    } else if !ids.contains(trimmed(seeds[i]@)) {
        Some(Problem::UnknownSeed(seeds[i]@))
    } else {
        seeds_problem(seeds, ids, i + 1)
    }
}

/// What is wrong with a document: no nodes, then the first faulty node, then no
/// seeds, then the first unknown seed.
pub open spec fn inventory_problem(raw: RawInventory) -> Option<Problem> {
    if raw.nodes@.len() == 0 {
        Some(Problem::NoNodes)
    } else {
        match nodes_problem(raw.nodes@, 0) {
            Some(p) => Some(p),
            None => if raw.seeds@.len() == 0 {
                Some(Problem::NoSeed)
            } else {
                seeds_problem(raw.seeds@, node_ids(raw.nodes@), 0)
            },
        }
    }
}

/// The texts of `v` without repetition, each where it first stands.
pub open spec fn distinct(v: Seq<Seq<char>>) -> Seq<Seq<char>>
    decreases v.len(),
{
    if v.len() == 0 {
        v
    } else if distinct(v.drop_last()).contains(v.last()) {
        distinct(v.drop_last())
    } else {
        distinct(v.drop_last()).push(v.last())
    }
}

/// The order of the nodes in the inventory: the seeds, then the nodes as written.
pub open spec fn placement(raw: RawInventory) -> Seq<Seq<char>> {
    distinct(trimmed_all(raw.seeds@) + node_ids(raw.nodes@))
}

/// Where the node with a trimmed id first stands.
pub open spec fn raw_at(nodes: Seq<RawNode>, id: Seq<char>) -> int
    decreases nodes.len(),
{
    if nodes.len() == 0 || trimmed(nodes[0].id@) == id {
        0
    } else {
        1 + raw_at(nodes.drop_first(), id)
    }
}

/// Whether `t` is the target that a node describes. An empty password counts as none.
pub open spec fn is_target_of(t: ActuationTarget, n: RawNode) -> bool {
    &&& t.id@ == trimmed(n.id@)
    &&& t.resp_addr@ == trimmed(n.resp_addr@)
    &&& opt_string(t.auth) == (match n.auth {
        Some(a) => if a@.len() > 0 {
            Some(a@)
        } else {
            None
        },
        None => None,
    })
    &&& t.ssh@ == trimmed(n.ssh_target@)
    &&& t.upgrade_source@ == trimmed(n.upgrade_source@)
}

fn trim_string(s: &str) -> (r: String)
    ensures
        r@ == trimmed(s@),
{
    let chars = chars_of(s);
    string_of(trim(chars.as_slice()))
}

/// The target that a node describes.
pub fn to_target(node: &RawNode) -> (r: ActuationTarget)
    ensures
        is_target_of(r, *node),
{
    let auth: Option<String> = match &node.auth {
        Some(a) => if a.as_str().is_empty() {
            None
        } else {
            Some(a.clone())
        },
        None => None,
    };
    ActuationTarget {
        id: trim_string(node.id.as_str()),
        resp_addr: trim_string(node.resp_addr.as_str()),
        auth,
        ssh: trim_string(node.ssh_target.as_str()),
        upgrade_source: trim_string(node.upgrade_source.as_str()),
    }
}

/// Whether one of the texts is `id`.
fn holds_id(ids: &Vec<String>, id: &str) -> (r: bool)
    ensures
        r == crate::resp::string_views(ids@).contains(id@),
{
    let ghost v = crate::resp::string_views(ids@);
    for i in 0..ids.len()
        invariant
            v == crate::resp::string_views(ids@),
            forall|j: int| 0 <= j < i ==> #[trigger] v[j] != id@,
    {
        if crate::text::same_str(ids[i].as_str(), id) {
            assert(v[i as int] == id@);
            return true;
        }
    }
    false
}

/// Checks the nodes; gives their trimmed ids.
fn check_nodes(nodes: &Vec<RawNode>) -> (r: Result<Vec<String>, InventoryError>)
    ensures
        match r {
            Ok(ids) => nodes_problem(nodes@, 0) is None && crate::resp::string_views(ids@)
                == node_ids(nodes@),
            Err(e) => nodes_problem(nodes@, 0) == Some(e.problem()),
        },
{
    let mut ids: Vec<String> = Vec::new();
    assert(crate::resp::string_views(ids@) =~= node_ids(nodes@).take(0));
    for i in 0..nodes.len()
        invariant
            nodes_problem(nodes@, 0) == nodes_problem(nodes@, i as int),
            crate::resp::string_views(ids@) == node_ids(nodes@).take(i as int),
    {
        let n = &nodes[i];
        let id = trim_string(n.id.as_str());
        if id.as_str().is_empty() {
            let mut position: String = String::new();
            append_number(&mut position, i as u128 + 1);
            assert(position@ =~= decimal((i + 1) as nat));
            return Err(InventoryError::EmptyField { id: position, field: "id" });
        }
        if holds_id(&ids, id.as_str()) {
            return Err(InventoryError::DuplicateId(id));
        }
        let ssh = trim_string(n.ssh_target.as_str());
        if ssh.as_str().is_empty() {
            return Err(InventoryError::EmptyField { id, field: "ssh_target" });
        }
        let source = trim_string(n.upgrade_source.as_str());
        if source.as_str().is_empty() {
            return Err(InventoryError::EmptyField { id, field: "upgrade_source" });
        }
        let addr = chars_of(n.resp_addr.as_str());
        if !is_valid_host_port(trim(addr.as_slice())) {
            return Err(InventoryError::BadAddr { id, addr: n.resp_addr.clone() });
        }
        let ghost prior = crate::resp::string_views(ids@);
        ids.push(id);
        assert(crate::resp::string_views(ids@) =~= prior.push(id@));
        assert(node_ids(nodes@).take(i as int + 1) =~= node_ids(nodes@).take(i as int).push(id@));
    }
    assert(node_ids(nodes@).take(nodes@.len() as int) =~= node_ids(nodes@));
    Ok(ids)
}

/// Checks that every seed is a node.
fn check_seeds(seeds: &Vec<String>, ids: &Vec<String>) -> (r: Result<(), InventoryError>)
    ensures
        match r {
            Ok(_) => seeds_problem(seeds@, crate::resp::string_views(ids@), 0) is None,
            Err(e) => seeds_problem(seeds@, crate::resp::string_views(ids@), 0) == Some(
                e.problem(),
            ),
        },
{
    for i in 0..seeds.len()
        invariant
            seeds_problem(seeds@, crate::resp::string_views(ids@), 0) == seeds_problem(
                seeds@,
                crate::resp::string_views(ids@),
                i as int,
            ),
    {
        let id = trim_string(seeds[i].as_str());
        if !holds_id(ids, id.as_str()) {
            return Err(InventoryError::UnknownSeed(seeds[i].clone()));
        }
    }
    Ok(())
}

proof fn lemma_raw_at(nodes: Seq<RawNode>, id: Seq<char>)
    ensures
        0 <= raw_at(nodes, id) <= nodes.len(),
        forall|j: int| 0 <= j < raw_at(nodes, id) ==> trimmed((#[trigger] nodes[j]).id@) != id,
        raw_at(nodes, id) < nodes.len() ==> trimmed(nodes[raw_at(nodes, id)].id@) == id,
    decreases nodes.len(),
{
    if nodes.len() > 0 && trimmed(nodes[0].id@) != id {
        lemma_raw_at(nodes.drop_first(), id);
        assert forall|j: int| 0 <= j < raw_at(nodes, id) implies trimmed((#[trigger] nodes[j]).id@)
            != id by {
            if j > 0 {
                assert(nodes[j] == nodes.drop_first()[j - 1]);
            }
        }
    }
}

/// The index of the node with an id that is known to be there.
fn find_raw(nodes: &Vec<RawNode>, id: &str) -> (r: usize)
    requires
        node_ids(nodes@).contains(id@),
    ensures
        r < nodes@.len(),
        r == raw_at(nodes@, id@),
{
    proof {
        lemma_raw_at(nodes@, id@);
        let k = choose|k: int| 0 <= k < node_ids(nodes@).len() && node_ids(nodes@)[k] == id@;
        assert(trimmed(nodes@[k].id@) == id@);
    }
    let mut i: usize = 0;
    while i < nodes.len()
        invariant
            i <= raw_at(nodes@, id@) < nodes@.len(),
            trimmed(nodes@[raw_at(nodes@, id@)].id@) == id@,
            forall|j: int|
                0 <= j < raw_at(nodes@, id@) ==> trimmed((#[trigger] nodes@[j]).id@) != id@,
        decreases nodes@.len() - i,
    {
        let t = trim_string(nodes[i].id.as_str());
        if crate::text::same_str(t.as_str(), id) {
            return i;
        }
        i = i + 1;
    }
    0
}

/// Whether the targets placed so far are those of the ids.
spec fn placed_targets(ordered: Seq<ActuationTarget>, ids: Seq<Seq<char>>, nodes: Seq<RawNode>) -> bool {
    &&& ordered.len() == ids.len()
    &&& forall|k: int|
        0 <= k < ids.len() ==> is_target_of(#[trigger] ordered[k], nodes[raw_at(nodes, ids[k])])
}

/// Places one id, unless it is placed already.
fn place(ordered: &mut Vec<ActuationTarget>, placed: &mut Vec<String>, nodes: &Vec<RawNode>, id: &str)
    requires
        node_ids(nodes@).contains(id@),
        placed_targets(old(ordered)@, crate::resp::string_views(old(placed)@), nodes@),
    ensures
        placed_targets(final(ordered)@, crate::resp::string_views(final(placed)@), nodes@),
        crate::resp::string_views(final(placed)@) == (if crate::resp::string_views(
            old(placed)@,
        ).contains(id@) {
            crate::resp::string_views(old(placed)@)
        } else {
            crate::resp::string_views(old(placed)@).push(id@)
        }),
{
    if !holds_id(placed, id) {
        let ghost before = crate::resp::string_views(placed@);
        let i = find_raw(nodes, id);
        ordered.push(to_target(&nodes[i]));
        placed.push(copy_str(id));
        assert(crate::resp::string_views(placed@) =~= before.push(id@));
    }
}

proof fn lemma_known_seeds(seeds: Seq<String>, ids: Seq<Seq<char>>, i: int, j: int)
    requires
        seeds_problem(seeds, ids, i) is None,
        0 <= i <= j < seeds.len(),
    ensures
        ids.contains(trimmed(seeds[j]@)),
    decreases seeds.len() - i,
{
    if i < j {
        lemma_known_seeds(seeds, ids, i + 1, j);
    }
}

/// Checks a document and puts the nodes in the order in which they are asked. The
/// document is what the parser made of the text, or why it could not.
pub fn parse_inventory(document: Result<RawInventory, String>) -> (r: Result<
    Inventory,
    InventoryError,
>)
    ensures
        match document {
            Err(d) => r matches Err(e) && e.problem() == Problem::Malformed(d@),
            Ok(raw) => match r {
                Err(e) => inventory_problem(raw) == Some(e.problem()),
                Ok(inv) => {
                    &&& inventory_problem(raw) is None
                    &&& inv.nodes@.len() == placement(raw).len()
                    &&& forall|k: int|
                        0 <= k < inv.nodes@.len() ==> is_target_of(
                            #[trigger] inv.nodes@[k],
                            raw.nodes@[raw_at(raw.nodes@, placement(raw)[k])],
                        )
                },
            },
        },
{
    let raw = match document {
        Ok(raw) => raw,
        Err(d) => {
            return Err(InventoryError::Malformed(d));
        },
    };
    if raw.nodes.len() == 0 {
        return Err(InventoryError::NoNodes);
    }
    let ids = match check_nodes(&raw.nodes) {
        Ok(ids) => ids,
        Err(e) => {
            return Err(e);
        },
    };
    if raw.seeds.len() == 0 {
        return Err(InventoryError::NoSeed);
    }
    if let Err(e) = check_seeds(&raw.seeds, &ids) {
        return Err(e);
    }
    let mut ordered: Vec<ActuationTarget> = Vec::new();
    let mut placed: Vec<String> = Vec::new();
    let ghost seeds = trimmed_all(raw.seeds@);
    let ghost names = node_ids(raw.nodes@);
    let ghost all = seeds + names;
    assert(crate::resp::string_views(placed@) =~= Seq::<Seq<char>>::empty());
    assert(distinct(all.take(0)) =~= Seq::<Seq<char>>::empty());
    for i in 0..raw.seeds.len()
        invariant
            seeds == trimmed_all(raw.seeds@),
            names == node_ids(raw.nodes@),
            all == seeds + names,
            seeds_problem(raw.seeds@, names, 0) is None,
            placed_targets(ordered@, crate::resp::string_views(placed@), raw.nodes@),
            crate::resp::string_views(placed@) == distinct(all.take(i as int)),
    {
        let id = trim_string(raw.seeds[i].as_str());
        proof {
            lemma_known_seeds(raw.seeds@, names, 0, i as int);
            assert(all.take(i as int + 1).drop_last() =~= all.take(i as int));
            assert(all.take(i as int + 1).last() == id@);
        }
        place(&mut ordered, &mut placed, &raw.nodes, id.as_str());
    }
    for i in 0..raw.nodes.len()
        invariant
            seeds == trimmed_all(raw.seeds@),
            names == node_ids(raw.nodes@),
            all == seeds + names,
            placed_targets(ordered@, crate::resp::string_views(placed@), raw.nodes@),
            crate::resp::string_views(placed@) == distinct(all.take(seeds.len() + i as int)),
    {
        let id = trim_string(raw.nodes[i].id.as_str());
        proof {
            let k = seeds.len() + i as int;
            assert(names[i as int] == id@);
            assert(names.contains(id@));
            assert(all.take(k + 1).drop_last() =~= all.take(k));
            assert(all.take(k + 1).last() == id@);
        }
        place(&mut ordered, &mut placed, &raw.nodes, id.as_str());
    }
    assert(all.take(all.len() as int) =~= all);
    Ok(Inventory::new(ordered))
}

proof fn lemma_distinct(v: Seq<Seq<char>>)
    ensures
        distinct(v).no_duplicates(),
        forall|x: Seq<char>| #[trigger] distinct(v).contains(x) <==> v.contains(x),
    decreases v.len(),
{
    if v.len() > 0 {
        let w = v.drop_last();
        lemma_distinct(w);
        assert forall|x: Seq<char>| #[trigger] distinct(v).contains(x) <==> v.contains(x) by {
            if v.contains(x) {
                let k = choose|k: int| 0 <= k < v.len() && v[k] == x;
                if k < w.len() {
                    assert(w[k] == x);
                    assert(distinct(w).contains(x));
                    let m = choose|m: int| 0 <= m < distinct(w).len() && distinct(w)[m] == x;
                    assert(distinct(v)[m] == x);
                } else if !distinct(w).contains(v.last()) {
                    assert(distinct(v).last() == x);
                }
            }
            if distinct(v).contains(x) {
                let m = choose|m: int| 0 <= m < distinct(v).len() && distinct(v)[m] == x;
                if m < distinct(w).len() {
                    assert(distinct(w)[m] == x);
                    assert(distinct(w).contains(x));
                    let k = choose|k: int| 0 <= k < w.len() && w[k] == x;
                    assert(v[k] == x);
                } else {
                    assert(v.last() == x);
                }
            }
        }
    }
}

/// An accepted inventory holds every node exactly once, and begins with the first
/// seed.
pub proof fn law_placement_is_complete(raw: RawInventory)
    requires
        inventory_problem(raw) is None,
    ensures
        placement(raw).no_duplicates(),
        forall|id: Seq<char>|
            #[trigger] placement(raw).contains(id) <==> node_ids(raw.nodes@).contains(id),
        placement(raw)[0] == trimmed(raw.seeds@[0]@),
{
    let seeds = trimmed_all(raw.seeds@);
    let names = node_ids(raw.nodes@);
    let all = seeds + names;
    lemma_distinct(all);
    assert forall|id: Seq<char>| #[trigger] placement(raw).contains(id) <==> names.contains(id) by {
        if all.contains(id) {
            let k = choose|k: int| 0 <= k < all.len() && all[k] == id;
            if k < seeds.len() {
                lemma_known_seeds(raw.seeds@, names, 0, k);
            } else {
                assert(names[k - seeds.len()] == id);
            }
        }
        if names.contains(id) {
            let k = choose|k: int| 0 <= k < names.len() && names[k] == id;
            assert(all[seeds.len() + k] == id);
        }
    }
    lemma_distinct_first(all);
}

proof fn lemma_distinct_first(v: Seq<Seq<char>>)
    requires
        v.len() > 0,
    ensures
        distinct(v).len() > 0,
        distinct(v)[0] == v[0],
    decreases v.len(),
{
    if v.len() > 1 {
        lemma_distinct_first(v.drop_last());
    } else {
        assert(distinct(v.drop_last()).len() == 0);
    }
}

/// A node of a plan.
#[derive(Debug, Clone, PartialEq, Eq)]
pub struct PlanNode {
    /// The id.
    pub id: String,
    /// The version that was observed.
    pub version: String,
}

/// What a roll would do, in order: upgrade the replicas on the old version, promote
/// an upgraded in-sync replica, upgrade the old primary.
#[derive(Debug, Clone, PartialEq, Eq)]
pub struct UpgradePlan {
    /// The version that the shard is rolled to.
    pub target_version: String,
    /// Every node is on the target version already.
    pub already_upgraded: bool,
    /// The primary that was observed.
    pub master: Option<PlanNode>,
    /// The replicas to upgrade, by ascending id.
    pub replica_upgrades: Vec<PlanNode>,
    /// The candidate that could be promoted now.
    pub promote_candidate: Option<String>,
}

/// The id and version of a node of a plan.
pub open spec fn plan_pair(n: PlanNode) -> (Seq<char>, Seq<char>) {
    (n.id@, n.version@)
}

/// The ids and versions of the nodes of a plan.
pub open spec fn plan_pairs(v: Seq<PlanNode>) -> Seq<(Seq<char>, Seq<char>)> {
    v.map_values(|n: PlanNode| plan_pair(n))
}

/// A list by ascending id with `x` behind those whose id is not greater.
pub open spec fn plan_insert(s: Seq<(Seq<char>, Seq<char>)>, x: (Seq<char>, Seq<char>)) -> Seq<
    (Seq<char>, Seq<char>),
>
    decreases s.len(),
{
    if s.len() > 0 && text_lt(x.0, s.last().0) {
        plan_insert(s.drop_last(), x).push(s.last())
    } else {
        s.push(x)
    }
}

/// The replicas to upgrade among the first `n` nodes, by ascending id.
pub open spec fn plan_replicas(nodes: Seq<NodeView>, target: Seq<char>, n: nat) -> Seq<
    (Seq<char>, Seq<char>),
>
    decreases n,
{
    if n == 0 {
        Seq::empty()
    } else {
        let rest = plan_replicas(nodes, target, (n - 1) as nat);
        if nodes[n - 1].to_upgrade(target) {
            plan_insert(rest, (nodes[n - 1].id@, nodes[n - 1].version@))
        } else {
            rest
        }
    }
}

/// Whether the ids of a list do not descend.
pub open spec fn by_id(s: Seq<(Seq<char>, Seq<char>)>) -> bool {
    forall|i: int, j: int|
        0 <= i < j < s.len() ==> !text_lt((#[trigger] s[j]).0, (#[trigger] s[i]).0)
}

proof fn lemma_plan_insert(s: Seq<(Seq<char>, Seq<char>)>, x: (Seq<char>, Seq<char>))
    requires
        by_id(s),
    ensures
        by_id(plan_insert(s, x)),
        plan_insert(s, x).to_multiset() == s.to_multiset().insert(x),
        plan_insert(s, x).len() == s.len() + 1,
        forall|y: (Seq<char>, Seq<char>)|
            #[trigger] plan_insert(s, x).contains(y) ==> s.contains(y) || y == x,
    decreases s.len(),
{
    broadcast use vstd::seq_lib::group_to_multiset_ensures;

    let r = plan_insert(s, x);
    if s.len() > 0 && text_lt(x.0, s.last().0) {
        let t = s.drop_last();
        let q = plan_insert(t, x);
        lemma_plan_insert(t, x);
        assert(s =~= t.push(s.last()));
        assert forall|y: (Seq<char>, Seq<char>)| #[trigger] r.contains(y) implies s.contains(y) || y
            == x by {
            let k = choose|k: int| 0 <= k < r.len() && r[k] == y;
            if k < q.len() {
                assert(q[k] == y);
                assert(q.contains(y));
                if t.contains(y) {
                    let m = choose|m: int| 0 <= m < t.len() && t[m] == y;
                    assert(s[m] == y);
                }
            } else {
                assert(s[s.len() - 1] == y);
            }
        }
        assert forall|i: int, j: int| 0 <= i < j < r.len() implies !text_lt(
            (#[trigger] r[j]).0,
            (#[trigger] r[i]).0,
        ) by {
            if j == r.len() - 1 {
                let y = q[i];
                assert(q.contains(y));
                if y == x {
                    lemma_text_lt_total(x.0, s.last().0);
                } else {
                    let m = choose|m: int| 0 <= m < t.len() && t[m] == y;
                    assert(s[m] == y);
                }
            } else {
                assert(r[i] == q[i] && r[j] == q[j]);
            }
        }
        assert(r.to_multiset() =~= s.to_multiset().insert(x));
    } else {
        assert forall|i: int, j: int| 0 <= i < j < r.len() implies !text_lt(
            (#[trigger] r[j]).0,
            (#[trigger] r[i]).0,
        ) by {
            if j == r.len() - 1 {
                if text_lt(x.0, s[i].0) && i < s.len() - 1 {
                    assert(!text_lt(s[s.len() - 1].0, s[i].0));
                    lemma_text_lt_total(s.last().0, s[i].0);
                    if text_lt(s[i].0, s.last().0) {
                        lemma_text_lt_trans(x.0, s[i].0, s.last().0);
                    }
                }
            }
        }
    }
}

/// The ids and versions of the replicas among the first `n` nodes that are still to be
/// upgraded, in the order in which the nodes stand.
pub open spec fn waiting_replicas(nodes: Seq<NodeView>, target: Seq<char>, n: nat) -> Seq<
    (Seq<char>, Seq<char>),
>
    decreases n,
{
    if n == 0 {
        Seq::empty()
    } else {
        let rest = waiting_replicas(nodes, target, (n - 1) as nat);
        if nodes[n - 1].to_upgrade(target) {
            rest.push((nodes[n - 1].id@, nodes[n - 1].version@))
        } else {
            rest
        }
    }
}

/// A plan lists exactly the replicas that are still to be upgraded, by ascending id.
pub proof fn law_plan_replicas_sorted(nodes: Seq<NodeView>, target: Seq<char>, n: nat)
    requires
        n <= nodes.len(),
    ensures
        by_id(plan_replicas(nodes, target, n)),
        plan_replicas(nodes, target, n).to_multiset() == waiting_replicas(
            nodes,
            target,
            n,
        ).to_multiset(),
    decreases n,
{
    broadcast use vstd::seq_lib::group_to_multiset_ensures;

    if n > 0 {
        law_plan_replicas_sorted(nodes, target, (n - 1) as nat);
        let rest = plan_replicas(nodes, target, (n - 1) as nat);
        lemma_plan_insert(rest, (nodes[n - 1].id@, nodes[n - 1].version@));
    }
}

/// Inserts a node of a plan behind those whose id is not greater.
fn insert_planned(v: &mut Vec<PlanNode>, x: PlanNode)
    ensures
        plan_pairs(final(v)@) == plan_insert(plan_pairs(old(v)@), plan_pair(x)),
{
    let ghost s = plan_pairs(v@);
    let ghost p = plan_pair(x);
    let mut n: usize = v.len();
    assert(s.take(n as int) =~= s);
    assert(plan_insert(s.take(n as int), p) + s.skip(n as int) =~= plan_insert(s, p));
    while n > 0 && before(x.id.as_str(), v[n - 1].id.as_str())
        invariant
            n <= v@.len(),
            s == plan_pairs(v@),
            p == plan_pair(x),
            plan_insert(s.take(n as int), p) + s.skip(n as int) == plan_insert(s, p),
        decreases n,
    {
        assert(s.take(n as int).drop_last() =~= s.take(n as int - 1));
        assert(s.take(n as int).last() == plan_pair(v@[n as int - 1]));
        assert(plan_insert(s.take(n as int - 1), p).push(s[n as int - 1]) + s.skip(n as int)
            =~= plan_insert(s.take(n as int - 1), p) + s.skip(n as int - 1));
        n = n - 1;
    }
    assert(n > 0 ==> s.take(n as int).last() == plan_pair(v@[n as int - 1]));
    v.insert(n, x);
    assert(plan_pairs(v@) =~= s.take(n as int).push(p) + s.skip(n as int));
}

/// Whether a plan is the one for a view: the first primary, the replicas that are not
/// on the target version by their ids, and the candidate of the promotion.
pub open spec fn is_plan_for(p: UpgradePlan, view: ClusterView) -> bool {
    &&& p.target_version@ == view.target_version@
    &&& p.already_upgraded == view.all_on_target()
    &&& match p.master {
        Some(m) => first_master(view.nodes@) < view.nodes@.len() && m.id@
            == view.nodes@[first_master(view.nodes@)].id@ && m.version@
            == view.nodes@[first_master(view.nodes@)].version@,
        None => first_master(view.nodes@) == view.nodes@.len(),
    }
    &&& plan_pairs(p.replica_upgrades@) == plan_replicas(
        view.nodes@,
        view.target_version@,
        view.nodes@.len(),
    )
    &&& match p.promote_candidate {
        Some(id) => view.candidate() is Some && id@ == view.nodes@[view.candidate()->0].id@,
        None => view.candidate() is None,
    }
}

/// Derives the plan from one observation. Nothing is acted on.
pub fn derive_plan(view: &ClusterView) -> (r: UpgradePlan)
    ensures
        is_plan_for(r, *view),
{
    let master = match view.find_master() {
        Some(i) => Some(
            PlanNode { id: view.nodes[i].id.clone(), version: view.nodes[i].version.clone() },
        ),
        None => None,
    };
    let mut replica_upgrades: Vec<PlanNode> = Vec::new();
    assert(plan_pairs(replica_upgrades@) =~= Seq::<(Seq<char>, Seq<char>)>::empty());
    for i in 0..view.nodes.len()
        invariant
            plan_pairs(replica_upgrades@) == plan_replicas(
                view.nodes@,
                view.target_version@,
                i as nat,
            ),
    {
        let n = &view.nodes[i];
        if n.role == NodeRole::Replica && !n.is_upgraded(view.target_version.as_str()) {
            insert_planned(
                &mut replica_upgrades,
                PlanNode { id: n.id.clone(), version: n.version.clone() },
            );
        }
    }
    let promote_candidate = match view.select_promote_candidate() {
        Some(n) => Some(n.id.clone()),
        None => None,
    };
    UpgradePlan {
        target_version: view.target_version.clone(),
        already_upgraded: view.shard_fully_upgraded(),
        master,
        replica_upgrades,
        promote_candidate,
    }
}

/// The lines of the first `n` replica upgrades of a plan.
pub open spec fn replica_lines(v: Seq<PlanNode>, target: Seq<char>, n: nat) -> Seq<char>
    decreases n,
{
    if n == 0 {
        Seq::empty()
    } else {
        replica_lines(v, target, (n - 1) as nat) + replica_line(v[n - 1], target, n)
    }
}

/// The line of a replica upgrade that is step `step`.
pub open spec fn replica_line(r: PlanNode, target: Seq<char>, step: nat) -> Seq<char> {
    "  "@ + decimal(step) + ". upgrade replica "@ + r.id@ + " (on "@ + r.version@ + " -> "@ + target
        + ")\n"@
}

impl UpgradePlan {
    /// The plan as it is shown.
    pub open spec fn text(self) -> Seq<char> {
        let head = "rolling-upgrade plan (dry-run, NO action taken) -> target version "@
            + self.target_version@ + "\n"@;
        let n = self.replica_upgrades@.len();
        if self.already_upgraded {
            head + "  every node is already on "@ + self.target_version@
                + ": nothing to do (no-op)\n"@
        } else {
            let primary = match self.master {
                Some(m) => "  current primary: "@ + m.id@ + " (on "@ + m.version@ + ")\n"@,
                None => "  current primary: (none observed in this snapshot)\n"@,
            };
            let promote = match self.promote_candidate {
                Some(c) =>
                    ". promote an upgraded in-sync replica (freeze-drain-failover; currently least-lagging candidate: "@
                    + c@ + ")\n"@,
                None =>
                    ". promote an upgraded in-sync replica (freeze-drain-failover; candidate chosen at promote time)\n"@,
            };
            let last = match self.master {
                Some(m) => ". upgrade the old primary "@ + m.id@ + " LAST\n"@,
                None => ". upgrade the old primary LAST\n"@,
            };
            head + primary + replica_lines(self.replica_upgrades@, self.target_version@, n) + "  "@
                + decimal(n + 1) + promote + "  "@ + decimal(n + 2) + last
        }
    }

    /// Shows the plan.
    pub fn to_text(&self) -> (r: String)
        ensures
            r@ == self.text(),
    {
        let mut r: String = "rolling-upgrade plan (dry-run, NO action taken) -> target version ".to_owned();
        r.append(self.target_version.as_str());
        r.append("\n");
        if self.already_upgraded {
            r.append("  every node is already on ");
            r.append(self.target_version.as_str());
            r.append(": nothing to do (no-op)\n");
            return r;
        }
        let mut primary: String;
        match &self.master {
            Some(m) => {
                primary = "  current primary: ".to_owned();
                primary.append(m.id.as_str());
                primary.append(" (on ");
                primary.append(m.version.as_str());
                primary.append(")\n");
            },
            None => {
                primary = "  current primary: (none observed in this snapshot)\n".to_owned();
            },
        }
        r.append(primary.as_str());
        let ghost start = r@;
        let n: usize = self.replica_upgrades.len();
        assert(start + replica_lines(self.replica_upgrades@, self.target_version@, 0) =~= start);
        for i in 0..n
            invariant
                n == self.replica_upgrades@.len(),
                r@ == start + replica_lines(
                    self.replica_upgrades@,
                    self.target_version@,
                    i as nat,
                ),
        {
            let p = &self.replica_upgrades[i];
            let mut line: String = "  ".to_owned();
            append_number(&mut line, i as u128 + 1);
            line.append(". upgrade replica ");
            line.append(p.id.as_str());
            line.append(" (on ");
            line.append(p.version.as_str());
            line.append(" -> ");
            line.append(self.target_version.as_str());
            line.append(")\n");
            r.append(line.as_str());
            assert(line@ == replica_line(*p, self.target_version@, i as nat + 1));
            assert(r@ =~= start + replica_lines(
                self.replica_upgrades@,
                self.target_version@,
                i as nat + 1,
            ));
        }
        let mut promote: String;
        match &self.promote_candidate {
            Some(c) => {
                promote =
                ". promote an upgraded in-sync replica (freeze-drain-failover; currently least-lagging candidate: ".to_owned();
                promote.append(c.as_str());
                promote.append(")\n");
            },
            None => {
                promote =
                ". promote an upgraded in-sync replica (freeze-drain-failover; candidate chosen at promote time)\n".to_owned();
            },
        }
        let mut last: String;
        match &self.master {
            Some(m) => {
                last = ". upgrade the old primary ".to_owned();
                last.append(m.id.as_str());
                last.append(" LAST\n");
            },
            None => {
                last = ". upgrade the old primary LAST\n".to_owned();
            },
        }
        r.append("  ");
        append_number(&mut r, n as u128 + 1);
        r.append(promote.as_str());
        r.append("  ");
        append_number(&mut r, n as u128 + 2);
        r.append(last.as_str());
        r
    }
}

/// An address is valid if and only if it is a host that is not empty, a colon and a port
/// from 1 to 65535.
pub proof fn law_valid_addresses(host: Seq<char>, port: nat, addr: Seq<char>)
    ensures
        valid_addr(host + seq![':'] + decimal(port)) <==> host.len() > 0 && 1 <= port <= 65535,
        !addr.contains(':') ==> !valid_addr(addr),
{
    let s = host + seq![':'] + decimal(port);
    law_last_at(s, ':');
    law_last_at(addr, ':');
    lemma_decimal_value(port);
    assert(s[host.len() as int] == ':');
    assert forall|j: int| host.len() < j < s.len() implies s[j] != ':' by {
        assert(crate::text::is_digit(decimal(port)[j - host.len() - 1]));
    }
    assert(last_at(s, ':') == host.len());
    assert(s.skip(host.len() as int + 1) =~= decimal(port));
    assert(crate::text::is_digit(decimal(port)[0]));
    if port <= 65535 {
        lemma_decimal_round_trip(port, 65535);
    }
    if !addr.contains(':') && last_at(addr, ':') >= 0 {
        assert(addr[last_at(addr, ':')] == ':');
    }
}

/// Whether a node of an inventory has all that is required of it.
pub open spec fn node_is_sound(n: RawNode) -> bool {
    &&& trimmed(n.id@).len() > 0
    &&& trimmed(n.ssh_target@).len() > 0
    &&& trimmed(n.upgrade_source@).len() > 0
    &&& valid_addr(trimmed(n.resp_addr@))
}

/// An inventory is accepted if and only if it has nodes, every node has what is required
/// of it, no two have the same id, and it has seeds, each of which is a node.
pub proof fn law_when_an_inventory_is_accepted(raw: RawInventory)
    ensures
        inventory_problem(raw) is None <==> {
            &&& raw.nodes@.len() > 0
            &&& raw.seeds@.len() > 0
            &&& forall|i: int| 0 <= i < raw.nodes@.len() ==> node_is_sound(#[trigger] raw.nodes@[i])
            &&& forall|i: int, j: int|
                0 <= i < j < raw.nodes@.len() ==> trimmed((#[trigger] raw.nodes@[i]).id@)
                    != trimmed((#[trigger] raw.nodes@[j]).id@)
            &&& forall|s: int|
                0 <= s < raw.seeds@.len() ==> exists|i: int|
                    0 <= i < raw.nodes@.len() && trimmed((#[trigger] raw.nodes@[i]).id@) == trimmed(
                        (#[trigger] raw.seeds@[s])@,
                    )
        },
{
    let nodes = raw.nodes@;
    let ids = node_ids(nodes);
    lemma_nodes_sound(nodes, 0);
    lemma_seeds_known(raw.seeds@, ids, 0);
    if inventory_problem(raw) is None {
        assert forall|i: int, j: int| 0 <= i < j < nodes.len() implies trimmed(
            (#[trigger] nodes[i]).id@,
        ) != trimmed((#[trigger] nodes[j]).id@) by {
            assert(node_problem(nodes, j) is None);
            assert(ids.take(j)[i] == trimmed(nodes[i].id@));
        }
        assert forall|i: int| 0 <= i < nodes.len() implies node_is_sound(#[trigger] nodes[i]) by {
            assert(node_problem(nodes, i) is None);
        }
        assert forall|s: int| 0 <= s < raw.seeds@.len() implies exists|i: int|
            0 <= i < nodes.len() && trimmed((#[trigger] nodes[i]).id@) == trimmed(
                (#[trigger] raw.seeds@[s])@,
            ) by {
            assert(ids.contains(trimmed(raw.seeds@[s]@)));
            let k = choose|k: int| 0 <= k < ids.len() && ids[k] == trimmed(raw.seeds@[s]@);
            assert(trimmed(nodes[k].id@) == trimmed(raw.seeds@[s]@));
        }
    }
    if {
        &&& nodes.len() > 0
        &&& raw.seeds@.len() > 0
        &&& forall|i: int| 0 <= i < nodes.len() ==> node_is_sound(#[trigger] nodes[i])
        &&& forall|i: int, j: int|
            0 <= i < j < nodes.len() ==> trimmed((#[trigger] nodes[i]).id@) != trimmed(
                (#[trigger] nodes[j]).id@,
            )
        &&& forall|s: int|
            0 <= s < raw.seeds@.len() ==> exists|i: int|
                0 <= i < nodes.len() && trimmed((#[trigger] nodes[i]).id@) == trimmed(
                    (#[trigger] raw.seeds@[s])@,
                )
    } {
        assert forall|i: int| 0 <= i < nodes.len() implies #[trigger] node_problem(nodes, i) is None by {
            assert(node_is_sound(nodes[i]));
            if ids.take(i).contains(trimmed(nodes[i].id@)) {
                let k = choose|k: int|
                    0 <= k < ids.take(i).len() && ids.take(i)[k] == trimmed(nodes[i].id@);
                assert(trimmed(nodes[k].id@) != trimmed(nodes[i].id@));
            }
        }
        assert forall|s: int| 0 <= s < raw.seeds@.len() implies ids.contains(
            trimmed((#[trigger] raw.seeds@[s])@),
        ) by {
            let i = choose|i: int|
                0 <= i < nodes.len() && trimmed((#[trigger] nodes[i]).id@) == trimmed(
                    raw.seeds@[s]@,
                );
            assert(ids[i] == trimmed(raw.seeds@[s]@));
        }
    }
}

proof fn lemma_nodes_sound(nodes: Seq<RawNode>, i: int)
    requires
        0 <= i <= nodes.len(),
    ensures
        nodes_problem(nodes, i) is None <==> forall|k: int|
            i <= k < nodes.len() ==> #[trigger] node_problem(nodes, k) is None,
    decreases nodes.len() - i,
{
    if i < nodes.len() {
        lemma_nodes_sound(nodes, i + 1);
        if node_problem(nodes, i) is None && nodes_problem(nodes, i + 1) is None {
            assert forall|k: int| i <= k < nodes.len() implies #[trigger] node_problem(
                nodes,
                k,
            ) is None by {}
        }
    }
}

proof fn lemma_seeds_known(seeds: Seq<String>, ids: Seq<Seq<char>>, i: int)
    requires
        0 <= i <= seeds.len(),
    ensures
        seeds_problem(seeds, ids, i) is None <==> forall|k: int|
            i <= k < seeds.len() ==> ids.contains(trimmed((#[trigger] seeds[k])@)),
    decreases seeds.len() - i,
{
    if i < seeds.len() {
        lemma_seeds_known(seeds, ids, i + 1);
        if seeds_problem(seeds, ids, i) is None {
            assert forall|k: int| i <= k < seeds.len() implies ids.contains(
                trimmed((#[trigger] seeds[k])@),
            ) by {
                if k > i {
                    assert(seeds_problem(seeds, ids, i + 1) is None);
                }
            }
        }
    }
}

/// The problem that is reported is that of the first faulty node.
pub proof fn law_the_first_faulty_node_is_named(nodes: Seq<RawNode>, i: int)
    requires
        0 <= i < nodes.len(),
        node_problem(nodes, i) is Some,
        forall|k: int| 0 <= k < i ==> #[trigger] node_problem(nodes, k) is None,
    ensures
        nodes_problem(nodes, 0) == node_problem(nodes, i),
        trimmed(nodes[i].id@).len() == 0 ==> node_problem(nodes, i) == Some(
            Problem::EmptyField(decimal((i + 1) as nat), "id"@),
        ),
{
    lemma_first_fault(nodes, 0, i);
}

proof fn lemma_first_fault(nodes: Seq<RawNode>, from: int, i: int)
    requires
        0 <= from <= i < nodes.len(),
        node_problem(nodes, i) is Some,
        forall|k: int| from <= k < i ==> #[trigger] node_problem(nodes, k) is None,
    ensures
        nodes_problem(nodes, from) == node_problem(nodes, i),
    decreases i - from,
{
    if from < i {
        assert(node_problem(nodes, from) is None);
        lemma_first_fault(nodes, from + 1, i);
    }
}

/// Each target of an accepted inventory is the node with its id, with the surrounding
/// white space cut off; an empty secret is none.
pub proof fn law_targets_are_the_nodes(raw: RawInventory, k: int, t: ActuationTarget)
    requires
        inventory_problem(raw) is None,
        0 <= k < placement(raw).len(),
        is_target_of(t, raw.nodes@[raw_at(raw.nodes@, placement(raw)[k])]),
    ensures
        t.id@ == placement(raw)[k],
        exists|i: int|
            {
                &&& 0 <= i < raw.nodes@.len()
                &&& trimmed((#[trigger] raw.nodes@[i]).id@) == t.id@
                &&& t.resp_addr@ == trimmed(raw.nodes@[i].resp_addr@)
                &&& t.ssh@ == trimmed(raw.nodes@[i].ssh_target@)
                &&& t.upgrade_source@ == trimmed(raw.nodes@[i].upgrade_source@)
                &&& t.auth is Some <==> (raw.nodes@[i].auth matches Some(a) && a@.len() > 0)
                &&& t.auth matches Some(a) ==> a@ == raw.nodes@[i].auth->0@
            },
{
    law_placement_is_complete(raw);
    let id = placement(raw)[k];
    assert(placement(raw).contains(id));
    assert(node_ids(raw.nodes@).contains(id));
    lemma_raw_at_finds(raw.nodes@, id);
    let i = raw_at(raw.nodes@, id);
    assert(trimmed(raw.nodes@[i].id@) == t.id@);
}

proof fn lemma_raw_at_finds(nodes: Seq<RawNode>, id: Seq<char>)
    requires
        node_ids(nodes).contains(id),
    ensures
        0 <= raw_at(nodes, id) < nodes.len(),
        trimmed(nodes[raw_at(nodes, id)].id@) == id,
    decreases nodes.len(),
{
    let k = choose|k: int| 0 <= k < node_ids(nodes).len() && node_ids(nodes)[k] == id;
    if trimmed(nodes[0].id@) != id {
        let rest = nodes.drop_first();
        assert(k > 0);
        assert(node_ids(rest)[k - 1] == id);
        lemma_raw_at_finds(rest, id);
    }
}

/// The nodes come in the order in which they are first named, the seeds before the
/// others.
pub proof fn law_seeds_come_first(raw: RawInventory, a: int, b: int)
    requires
        0 <= a < b < placement(raw).len(),
    ensures
        first_at(trimmed_all(raw.seeds@) + node_ids(raw.nodes@), placement(raw)[a]) < first_at(
            trimmed_all(raw.seeds@) + node_ids(raw.nodes@),
            placement(raw)[b],
        ),
{
    lemma_distinct_order(trimmed_all(raw.seeds@) + node_ids(raw.nodes@), a, b);
}

proof fn lemma_distinct_order(v: Seq<Seq<char>>, a: int, b: int)
    requires
        0 <= a < b < distinct(v).len(),
    ensures
        first_at(v, distinct(v)[a]) < first_at(v, distinct(v)[b]),
    decreases v.len(),
{
    if v.len() > 0 {
        let w = v.drop_last();
        let d = distinct(w);
        lemma_distinct(w);
        if b < d.len() {
            lemma_distinct_order(w, a, b);
            assert(d.contains(d[a]) && d.contains(d[b]));
            lemma_first_stays(v, d[a]);
            lemma_first_stays(v, d[b]);
        } else {
            assert(d.contains(d[a]));
            assert(w.contains(d[a]));
            lemma_first_stays(v, d[a]);
            crate::text::lemma_first_at(v, v.last());
            crate::text::lemma_first_at(w, d[a]);
            let k = choose|k: int| 0 <= k < w.len() && w[k] == d[a];
            assert(first_at(w, d[a]) < w.len());
            let f = first_at(v, v.last());
            if f < w.len() {
                assert(w[f] == v.last());
                assert(w.contains(v.last()));
                assert(d.contains(v.last()));
            }
        }
    }
}

proof fn lemma_first_stays(v: Seq<Seq<char>>, x: Seq<char>)
    requires
        v.len() > 0,
        v.drop_last().contains(x),
    ensures
        first_at(v, x) == first_at(v.drop_last(), x),
{
    let w = v.drop_last();
    crate::text::lemma_first_at(w, x);
    let k = choose|k: int| 0 <= k < w.len() && w[k] == x;
    let i = first_at(w, x);
    assert(i < w.len());
    assert forall|j: int| 0 <= j < i implies v[j] != x by {
        assert(w[j] == v[j]);
    }
    crate::text::lemma_first_at_is(v, x, i);
}

/// A plan lists a node for an upgrade if and only if it is a replica that is not on the
/// target, with the version that it runs.
pub proof fn law_plan_lists_what_is_behind(nodes: Seq<NodeView>, target: Seq<char>, id: Seq<char>, version: Seq<char>)
    ensures
        plan_replicas(nodes, target, nodes.len()).contains((id, version)) <==> exists|i: int|
            {
                &&& 0 <= i < nodes.len()
                &&& (#[trigger] nodes[i]).role == crate::cluster_upgrade::NodeRole::Replica
                &&& nodes[i].version@ != target
                &&& nodes[i].id@ == id
                &&& nodes[i].version@ == version
            },
{
    broadcast use vstd::seq_lib::group_to_multiset_ensures;

    let s = plan_replicas(nodes, target, nodes.len());
    let w = waiting_replicas(nodes, target, nodes.len());
    law_plan_replicas_sorted(nodes, target, nodes.len());
    lemma_waiting(nodes, target, nodes.len(), (id, version));
    assert(s.contains((id, version)) <==> s.to_multiset().contains((id, version)));
    assert(w.contains((id, version)) <==> w.to_multiset().contains((id, version)));
}

proof fn lemma_waiting(nodes: Seq<NodeView>, target: Seq<char>, n: nat, x: (Seq<char>, Seq<char>))
    requires
        n <= nodes.len(),
    ensures
        waiting_replicas(nodes, target, n).contains(x) <==> exists|i: int|
            {
                &&& 0 <= i < n
                &&& (#[trigger] nodes[i]).role == crate::cluster_upgrade::NodeRole::Replica
                &&& nodes[i].version@ != target
                &&& nodes[i].id@ == x.0
                &&& nodes[i].version@ == x.1
            },
    decreases n,
{
    if n > 0 {
        let m = (n - 1) as nat;
        lemma_waiting(nodes, target, m, x);
        let rest = waiting_replicas(nodes, target, m);
        let all = waiting_replicas(nodes, target, n);
        let last = nodes[n - 1];
        if rest.contains(x) {
            let k = choose|k: int| 0 <= k < rest.len() && rest[k] == x;
            assert(all[k] == x);
        }
        if last.to_upgrade(target) {
            assert(all.last() == (last.id@, last.version@));
            if all.contains(x) && !rest.contains(x) {
                let k = choose|k: int| 0 <= k < all.len() && all[k] == x;
                if k < rest.len() {
                    assert(rest[k] == x);
                }
                assert(x == (last.id@, last.version@));
            }
            if x == (last.id@, last.version@) {
                assert(all[all.len() - 1] == x);
            }
        }
    }
}

/// A plan lists each replica that is behind and no other node, by ascending id, and names
/// the primary that comes first in the view.
pub proof fn law_what_a_plan_says(p: UpgradePlan, view: ClusterView, m: int, i: int)
    requires
        is_plan_for(p, view),
        0 <= m < view.nodes@.len(),
    ensures
        p.target_version@ == view.target_version@,
        view.nodes@[m].role is Master && (forall|j: int|
            0 <= j < m ==> (#[trigger] view.nodes@[j]).role is Replica) ==> (p.master matches Some(
            n,
        ) && n.id@ == view.nodes@[m].id@ && n.version@ == view.nodes@[m].version@),
        (forall|j: int| 0 <= j < view.nodes@.len() ==> (#[trigger] view.nodes@[j]).role is Replica)
            ==> p.master is None,
        p.already_upgraded ==> view.nodes@[m].version@ == view.target_version@,
        view.nodes@[m].role is Replica && view.nodes@[m].version@ != view.target_version@
            ==> exists|k: int|
            0 <= k < p.replica_upgrades@.len() && (#[trigger] p.replica_upgrades@[k]).id@
                == view.nodes@[m].id@ && p.replica_upgrades@[k].version@
                == view.nodes@[m].version@,
        0 <= i < p.replica_upgrades@.len() ==> exists|k: int|
            {
                &&& 0 <= k < view.nodes@.len()
                &&& (#[trigger] view.nodes@[k]).role is Replica
                &&& view.nodes@[k].version@ != view.target_version@
                &&& p.replica_upgrades@[i].id@ == view.nodes@[k].id@
                &&& p.replica_upgrades@[i].version@ == view.nodes@[k].version@
            },
        p.promote_candidate is Some <==> view.candidate() is Some,
        p.promote_candidate matches Some(id) ==> id@ == view.nodes@[view.candidate()->0].id@,
{
    let nodes = view.nodes@;
    let target = view.target_version@;
    crate::cluster_upgrade::lemma_first_master(nodes);
    let pairs = plan_pairs(p.replica_upgrades@);
    law_plan_lists_what_is_behind(nodes, target, nodes[m].id@, nodes[m].version@);
    if nodes[m].role is Replica && nodes[m].version@ != target {
        assert(pairs.contains((nodes[m].id@, nodes[m].version@)));
        let k = choose|k: int|
            0 <= k < pairs.len() && pairs[k] == (nodes[m].id@, nodes[m].version@);
        assert(p.replica_upgrades@[k].id@ == nodes[m].id@);
    }
    if 0 <= i < p.replica_upgrades@.len() {
        let n = p.replica_upgrades@[i];
        assert(pairs[i] == (n.id@, n.version@));
        assert(pairs.contains((n.id@, n.version@)));
        law_plan_lists_what_is_behind(nodes, target, n.id@, n.version@);
    }
}

/// The plan as it is shown has a line for each replica to upgrade, with its place in the
/// order, and the line of the old primary behind all others.
pub proof fn law_a_plan_shows_every_step(p: UpgradePlan, i: int)
    requires
        !p.already_upgraded,
        0 <= i < p.replica_upgrades@.len(),
    ensures
        has_part(
            p.text(),
            "  "@ + decimal((i + 1) as nat) + ". upgrade replica "@ + p.replica_upgrades@[i].id@
                + " (on "@ + p.replica_upgrades@[i].version@ + " -> "@ + p.target_version@
                + ")\n"@,
        ),
        p.master matches Some(m) ==> exists|before: Seq<char>|
            p.text() == #[trigger] (before + (". upgrade the old primary "@ + m.id@
                + " LAST\n"@)),
        p.promote_candidate matches Some(c) ==> has_part(p.text(), c@),
{
    let head = "rolling-upgrade plan (dry-run, NO action taken) -> target version "@
        + p.target_version@ + "\n"@;
    let n = p.replica_upgrades@.len();
    let primary = match p.master {
        Some(m) => "  current primary: "@ + m.id@ + " (on "@ + m.version@ + ")\n"@,
        None => "  current primary: (none observed in this snapshot)\n"@,
    };
    let lead =
        ". promote an upgraded in-sync replica (freeze-drain-failover; currently least-lagging candidate: "@;
    let promote = match p.promote_candidate {
        Some(c) => lead + c@ + ")\n"@,
        None =>
            ". promote an upgraded in-sync replica (freeze-drain-failover; candidate chosen at promote time)\n"@,
    };
    let last = match p.master {
        Some(m) => ". upgrade the old primary "@ + m.id@ + " LAST\n"@,
        None => ". upgrade the old primary LAST\n"@,
    };
    let lines = replica_lines(p.replica_upgrades@, p.target_version@, n);
    lemma_replica_lines(p.replica_upgrades@, p.target_version@, n, i);
    let t0 = head + primary;
    let t1 = t0 + lines;
    let t2 = t1 + "  "@;
    let t3 = t2 + decimal(n + 1);
    let t4 = t3 + promote;
    let t5 = t4 + "  "@;
    let t6 = t5 + decimal(n + 2);
    assert(p.text() == t6 + last);
    let part = replica_line(p.replica_upgrades@[i], p.target_version@, (i + 1) as nat);
    lemma_part_behind(t0, lines, part);
    lemma_parts(t1, "  "@);
    lemma_parts(t2, decimal(n + 1));
    if let Some(c) = p.promote_candidate {
        lemma_parts(lead, c@);
        lemma_parts(lead + c@, ")\n"@);
        lemma_part_behind(t3, promote, c@);
    }
    lemma_parts(t3, promote);
    lemma_parts(t4, "  "@);
    lemma_parts(t5, decimal(n + 2));
    lemma_parts(t6, last);
}

proof fn lemma_part_behind(text: Seq<char>, more: Seq<char>, part: Seq<char>)
    requires
        has_part(more, part),
    ensures
        has_part(text + more, part),
{
    let (before, after) = choose|before: Seq<char>, after: Seq<char>|
        more == #[trigger] (before + part + after);
    assert(text + more =~= (text + before) + part + after);
}

proof fn lemma_replica_lines(v: Seq<PlanNode>, target: Seq<char>, n: nat, i: int)
    requires
        0 <= i < n,
    ensures
        has_part(replica_lines(v, target, n), replica_line(v[i], target, (i + 1) as nat)),
    decreases n,
{
    lemma_parts(replica_lines(v, target, (n - 1) as nat), replica_line(v[n - 1], target, n));
    if i < n - 1 {
        lemma_replica_lines(v, target, (n - 1) as nat, i);
    }
}

/// An error is about what it holds, and its message says that.
pub proof fn law_inventory_messages(a: String, b: String, field: &'static str)
    ensures
        problem_text((InventoryError::Read { path: a, detail: b }).problem())
            == "reading the inventory file "@ + a@ + ": "@ + b@,
        problem_text(InventoryError::Malformed(a).problem()) == "parsing the inventory TOML: "@ + a@,
        problem_text(InventoryError::DuplicateId(a).problem()) == "duplicate node id "@ + quoted(a@)
            + " (each [[node]] id must be unique)"@,
        problem_text((InventoryError::EmptyField { id: a, field }).problem()) == "node "@ + quoted(a@)
            + " has an empty "@ + field@ + " (it is required)"@,
        problem_text((InventoryError::BadAddr { id: a, addr: b }).problem()) == "node "@ + quoted(a@)
            + " has a malformed resp_addr "@ + quoted(b@)
            + " (expected host:port with a 1-65535 port)"@,
        problem_text(InventoryError::UnknownSeed(a).problem()) == "seed "@ + quoted(a@)
            + " is not a declared node id"@,
        InventoryError::NoNodes.problem() == Problem::NoNodes,
        InventoryError::NoSeed.problem() == Problem::NoSeed,
{
}

} // verus!
