//! Verify that each shard's artifact is serving as that shard, and plan where artifacts go.
//!
//! A read that fans out finds a point in whichever shard it is, so a shard installed in another's
//! place shows only when writes go astray. One endpoint reads from one shard alone, and only on the
//! peer that holds the shard. So every peer is asked which shards it holds, each shard's own ids are
//! asked of its owner, and the same ids of another shard, which must not have them.
use vstd::prelude::*;
use vstd::string::*;
use crate::ids;
use crate::json;
use crate::json::{Json, JsonValue};
use crate::records::PointId;
use crate::text;

verus! {

/// Outcome of a placement check.
#[derive(Debug)]
pub struct PlacementReport {
    /// Distinct peers reached, which is not the number of URLs: several can name one peer.
    pub peers_queried: usize,
    pub shards_checked: usize,
    pub ids_checked: usize,
    /// Ids missing from the shard that the ring assigned them to.
    pub misplaced: Vec<(u32, PointId)>,
    /// Ids found in a shard that the ring did not assign them to.
    pub leaked: Vec<(u32, PointId)>,
}

impl PlacementReport {
    /// A report on nothing but the peers.
    pub fn new(peers_queried: usize) -> (report: Self)
        ensures
            report.peers_queried == peers_queried,
            report.shards_checked == 0,
            report.ids_checked == 0,
            report.misplaced@.len() == 0,
            report.leaked@.len() == 0,
    {
        PlacementReport {
            peers_queried,
            shards_checked: 0,
            ids_checked: 0,
            misplaced: Vec::new(),
            leaked: Vec::new(),
        }
    }

    pub fn is_correct(&self) -> (correct: bool)
        ensures
            correct == (self.misplaced@.len() == 0 && self.leaked@.len() == 0),
    {
        self.misplaced.len() == 0 && self.leaked.len() == 0
    }
}

/// The whole number under a member of that name.
pub open spec fn number_member(value: JsonValue, key: Seq<char>) -> Option<u64> {
    match json::get_member(value, key) {
        Some(JsonValue::Unsigned(n)) => Some(n),
        _ => None,
    }
}

/// The list under a member of that name.
pub open spec fn list_member(value: JsonValue, key: Seq<char>) -> Option<Seq<JsonValue>> {
    match json::get_member(value, key) {
        Some(JsonValue::List(items)) => Some(items),
        _ => None,
    }
}

fn member_number(value: &Json, key: &str) -> (n: Option<u64>)
    ensures
        n == number_member(value@, key@),
{
    match value.get(key) {
        Some(Json::Unsigned(n)) => Some(*n),
        _ => None,
    }
}

fn member_list<'a>(value: &'a Json, key: &str) -> (items: Option<&'a Vec<Json>>)
    ensures
        match items {
            Some(items) => list_member(value@, key@) == Some(json::items_view(items@)),
            None => list_member(value@, key@) is None,
        },
{
    match value.get(key) {
        Some(Json::List(items)) => Some(items),
        _ => None,
    }
}

/// The `result` of a reply.
pub open spec fn result_of(reply: JsonValue) -> JsonValue {
    match json::get_member(reply, "result"@) {
        Some(result) => result,
        None => JsonValue::Null,
    }
}

fn result_in(reply: &Json) -> (result: Option<&Json>)
    ensures
        match result {
            Some(result) => json::get_member(reply@, "result"@) == Some(result@),
            None => json::get_member(reply@, "result"@) is None,
        },
{
    reply.get("result")
}

/// What one peer said of a collection: its address as given, and its reply or why there is none.
pub struct PeerReply {
    pub url: String,
    pub reply: Result<Json, String>,
}

/// That a peer holds a shard.
#[derive(Debug)]
pub struct Holding {
    pub shard: u32,
    pub peer: u64,
    /// The address under which the peer was reached.
    pub url: String,
}

/// What is known of the peers: each with its address, and each shard that one of them holds, in the
/// order in which they said so.
pub struct PeersView {
    pub peers: Seq<(u64, Seq<char>)>,
    pub holdings: Seq<(u32, u64, Seq<char>)>,
}

/// What a list of holdings says.
pub open spec fn holdings_view(holdings: Seq<Holding>) -> Seq<(u32, u64, Seq<char>)> {
    Seq::new(holdings.len(), |i: int| (holdings[i].shard, holdings[i].peer, holdings[i].url@))
}

/// The peers that hold a shard, each as it is listed in a message.
pub open spec fn holder_texts(holdings: Seq<(u32, u64, Seq<char>)>, shard: u32) -> Seq<Seq<char>>
    decreases holdings.len(),
{
    if holdings.len() == 0 {
        Seq::empty()
    } else {
        let front = holder_texts(holdings.drop_last(), shard);
        let last = holdings.last();
        if last.0 == shard {
            front.push(text::decimal_text(last.1 as nat) + " ("@ + last.2 + ")"@)
        } else {
            front
        }
    }
}

fn list_holders(holdings: &Vec<Holding>, shard: u32) -> (holders: Vec<String>)
    ensures
        text::texts(holders@) == holder_texts(holdings_view(holdings@), shard),
{
    let ghost all = holdings_view(holdings@);
    let mut holders: Vec<String> = Vec::new();
    let mut i: usize = 0;
    assert(all.take(0) =~= Seq::empty());
    assert(text::texts(holders@) =~= Seq::empty());
    while i < holdings.len()
        invariant
            i <= holdings.len(),
            all == holdings_view(holdings@),
            text::texts(holders@) == holder_texts(all.take(i as int), shard),
        decreases holdings.len() - i,
    {
        assert(all.take(i + 1).drop_last() =~= all.take(i as int));
        if holdings[i].shard == shard {
            let line = text::cat4(
                text::decimal(holdings[i].peer as u128).as_str(),
                " (",
                holdings[i].url.as_str(),
                ")",
            );
            let ghost was = text::texts(holders@);
            let ghost said = line@;
            holders.push(line);
            assert(text::texts(holders@) =~= was.push(said));
        }
        i = i + 1;
    }
    assert(all.take(all.len() as int) =~= all);
    holders
}

/// What is said of a shard on more peers than it has replicas.
pub open spec fn diverging_text(shard: u32, holders: Seq<Seq<char>>, replication_factor: u32) -> Seq<
    char,
> {
    "shard "@ + text::decimal_text(shard as nat) + " is reported local by "@ + text::decimal_text(
        holders.len(),
    ) + " peers ("@ + text::joined(holders, ", "@)
        + "), but the document's replication_factor is "@ + (text::decimal_text(
        replication_factor as nat,
    )
        + "; the artifact appears to be installed on more peers than the collection has replicas, so writes will reach only some copies and they will diverge"@)
}

/// The holdings behind one peer's list of local shards, up to the first shard that more peers hold
/// than it has replicas. An entry without a shard id says nothing.
pub open spec fn local_step(
    holdings: Seq<(u32, u64, Seq<char>)>,
    shards: Seq<JsonValue>,
    peer: u64,
    url: Seq<char>,
    replication_factor: u32,
) -> Result<Seq<(u32, u64, Seq<char>)>, Seq<char>>
    decreases shards.len(),
{
    if shards.len() == 0 {
        Ok(holdings)
    } else {
        match local_step(holdings, shards.drop_last(), peer, url, replication_factor) {
            Err(message) => Err(message),
            Ok(done) => match number_member(shards.last(), "shard_id"@) {
                None => Ok(done),
                Some(id) => {
                    let shard = id as u32;
                    let more = done.push((shard, peer, url));
                    let holders = holder_texts(more, shard);
                    if holders.len() > replication_factor {
                        Err(diverging_text(shard, holders, replication_factor))
                    } else {
                        Ok(more)
                    }
                },
            },
        }
    }
}

proof fn lemma_local_fault(
    holdings: Seq<(u32, u64, Seq<char>)>,
    shards: Seq<JsonValue>,
    n: int,
    peer: u64,
    url: Seq<char>,
    replication_factor: u32,
    message: Seq<char>,
)
    requires
        0 <= n <= shards.len(),
        local_step(holdings, shards.take(n), peer, url, replication_factor) == Err::<
            Seq<(u32, u64, Seq<char>)>,
            Seq<char>,
        >(message),
    ensures
        local_step(holdings, shards, peer, url, replication_factor) == Err::<
            Seq<(u32, u64, Seq<char>)>,
            Seq<char>,
        >(message),
    decreases shards.len(),
{
    if n == shards.len() {
        assert(shards.take(n) =~= shards);
    } else {
        assert(shards.drop_last().take(n) =~= shards.take(n));
        lemma_local_fault(
            holdings,
            shards.drop_last(),
            n,
            peer,
            url,
            replication_factor,
            message,
        );
    }
}

/// The id of a shard as a peer states it.
fn short_id(id: u64) -> (shard: u32)
    ensures
        shard == id as u32,
{
    #[verifier::truncate] (id as u32)
}

fn add_local_shards(
    holdings: &mut Vec<Holding>,
    shards: &Vec<Json>,
    peer: u64,
    url: &str,
    replication_factor: u32,
) -> (outcome: Result<(), String>)
    ensures
        match outcome {
            Ok(()) => local_step(
                holdings_view(old(holdings)@),
                json::items_view(shards@),
                peer,
                url@,
                replication_factor,
            ) == Ok::<Seq<(u32, u64, Seq<char>)>, Seq<char>>(holdings_view(final(holdings)@)),
            Err(message) => local_step(
                holdings_view(old(holdings)@),
                json::items_view(shards@),
                peer,
                url@,
                replication_factor,
            ) == Err::<Seq<(u32, u64, Seq<char>)>, Seq<char>>(message@),
        },
{
    let ghost given = holdings_view(holdings@);
    let ghost all = json::items_view(shards@);
    proof {
        json::lemma_items_at(shards@);
    }
    let mut i: usize = 0;
    assert(all.take(0) =~= Seq::empty());
    while i < shards.len()
        invariant
            i <= shards.len(),
            given == holdings_view(old(holdings)@),
            all == json::items_view(shards@),
            all.len() == shards.len(),
            forall|k: int| 0 <= k < shards@.len() ==> #[trigger] all[k] == shards@[k]@,
            local_step(given, all.take(i as int), peer, url@, replication_factor) == Ok::<
                Seq<(u32, u64, Seq<char>)>,
                Seq<char>,
            >(holdings_view(holdings@)),
        decreases shards.len() - i,
    {
        let ghost longer = all.take(i + 1);
        assert(longer.drop_last() =~= all.take(i as int));
        assert(longer.last() == shards@[i as int]@);
        match member_number(&shards[i], "shard_id") {
            None => {},
            Some(id) => {
                let shard: u32 = short_id(id);
                let ghost was = holdings_view(holdings@);
                holdings.push(Holding { shard, peer, url: url.to_owned() });
                assert(holdings_view(holdings@) =~= was.push((shard, peer, url@)));
                let holders = list_holders(holdings, shard);
                assert(text::texts(holders@).len() == holders@.len());
                if holders.len() > replication_factor as usize {
                    let mut message = text::cat7(
                        "shard ",
                        text::decimal(shard as u128).as_str(),
                        " is reported local by ",
                        text::decimal(holders.len() as u128).as_str(),
                        " peers (",
                        text::join(&holders, ", ").as_str(),
                        "), but the document's replication_factor is ",
                    );
                    message.append(
                        text::cat2(
                            text::decimal(replication_factor as u128).as_str(),
                            "; the artifact appears to be installed on more peers than the collection has replicas, so writes will reach only some copies and they will diverge",
                        ).as_str(),
                    );
                    proof {
                        let more = was.push((shard, peer, url@));
                        assert(message@ == diverging_text(
                            shard,
                            holder_texts(more, shard),
                            replication_factor,
                        ));
                        assert(local_step(given, longer, peer, url@, replication_factor) == Err::<
                            Seq<(u32, u64, Seq<char>)>,
                            Seq<char>,
                        >(message@));
                        lemma_local_fault(
                            given,
                            all,
                            i + 1,
                            peer,
                            url@,
                            replication_factor,
                            message@,
                        );
                    }
                    return Err(message);
                }
            },
        }
        i = i + 1;
    }
    assert(all.take(all.len() as int) =~= all);
    Ok(())
}

/// What is known of the peers behind one more reply. A peer that was reached before says nothing
/// new.
pub open spec fn reply_step(
    known: PeersView,
    reply: PeerReply,
    collection: Seq<char>,
    replication_factor: u32,
) -> Result<PeersView, Seq<char>> {
    let base = text::trim_back(reply.url@, set!['/']);
    match reply.reply {
        Err(why) => Err(
            "cannot read cluster info for "@ + collection + " from "@ + base + ": "@ + why@,
        ),
        Ok(cluster) => {
            let result = result_of(cluster@);
            match number_member(result, "peer_id"@) {
                None => Err(base + " reported no peer_id for '"@ + collection + "'"@),
                Some(peer) => if knows_peer(known.peers, peer) {
                    Ok(known)
                } else {
                    match list_member(result, "local_shards"@) {
                        None => Err(base + " reported no local_shards for '"@ + collection + "'"@),
                        Some(shards) => match local_step(
                            known.holdings,
                            shards,
                            peer,
                            base,
                            replication_factor,
                        ) {
                            Err(message) => Err(message),
                            Ok(holdings) => Ok(
                                PeersView { peers: known.peers.push((peer, base)), holdings },
                            ),
                        },
                    }
                },
            }
        },
    }
}

/// Whether a peer was reached.
pub open spec fn knows_peer(peers: Seq<(u64, Seq<char>)>, peer: u64) -> bool {
    exists|i: int| 0 <= i < peers.len() && (#[trigger] peers[i]).0 == peer
}

/// What is known of the peers behind their replies, up to the first that is at fault.
pub open spec fn peers_after(
    replies: Seq<PeerReply>,
    collection: Seq<char>,
    replication_factor: u32,
) -> Result<PeersView, Seq<char>>
    decreases replies.len(),
{
    if replies.len() == 0 {
        Ok(PeersView { peers: Seq::empty(), holdings: Seq::empty() })
    } else {
        match peers_after(replies.drop_last(), collection, replication_factor) {
            Err(message) => Err(message),
            Ok(known) => reply_step(known, replies.last(), collection, replication_factor),
        }
    }
}

proof fn lemma_reply_fault(
    replies: Seq<PeerReply>,
    n: int,
    collection: Seq<char>,
    replication_factor: u32,
    message: Seq<char>,
)
    requires
        0 <= n <= replies.len(),
        peers_after(replies.take(n), collection, replication_factor) == Err::<
            PeersView,
            Seq<char>,
        >(message),
    ensures
        peers_after(replies, collection, replication_factor) == Err::<PeersView, Seq<char>>(message),
    decreases replies.len(),
{
    if n == replies.len() {
        assert(replies.take(n) =~= replies);
    } else {
        assert(replies.drop_last().take(n) =~= replies.take(n));
        lemma_reply_fault(replies.drop_last(), n, collection, replication_factor, message);
    }
}

/// The address of the first peer that holds a shard.
pub open spec fn owner_url(holdings: Seq<(u32, u64, Seq<char>)>, shard: u32) -> Option<Seq<char>>
    decreases holdings.len(),
{
    if holdings.len() == 0 {
        None
    } else if holdings[0].0 == shard {
        Some(holdings[0].2)
    } else {
        owner_url(holdings.skip(1), shard)
    }
}

/// The shards below a number that no peer holds.
pub open spec fn unheld(holdings: Seq<(u32, u64, Seq<char>)>, shards: nat) -> Seq<Seq<char>>
    decreases shards,
{
    if shards == 0 {
        Seq::empty()
    } else {
        let front = unheld(holdings, (shards - 1) as nat);
        if owner_url(holdings, (shards - 1) as u32) is None {
            front.push(text::decimal_text((shards - 1) as nat))
        } else {
            front
        }
    }
}

/// The addresses that peers were given by.
pub open spec fn given_urls(replies: Seq<PeerReply>) -> Seq<Seq<char>> {
    Seq::new(replies.len(), |i: int| replies[i].url@)
}

/// What is said of shards that no peer holds.
pub open spec fn unheld_text(missing: Seq<Seq<char>>, urls: Seq<Seq<char>>) -> Seq<char> {
    "no supplied peer holds shard(s) ["@ + text::joined(missing, ", "@)
        + "]. The shard-scoped read endpoint is local-only, so every peer's REST URL must be passed with --url; got "@
        + text::debug_texts(urls)
}

/// Which peer to send each shard's query to.
#[derive(Debug)]
pub struct ShardOwners {
    pub holdings: Vec<Holding>,
}

fn find_owner<'a>(holdings: &'a Vec<Holding>, shard: u32) -> (url: Option<&'a String>)
    ensures
        match url {
            Some(url) => owner_url(holdings_view(holdings@), shard) == Some(url@),
            None => owner_url(holdings_view(holdings@), shard) is None,
        },
{
    let ghost all = holdings_view(holdings@);
    let mut i: usize = 0;
    assert(all.skip(0) =~= all);
    while i < holdings.len()
        invariant
            i <= holdings.len(),
            all == holdings_view(holdings@),
            owner_url(all, shard) == owner_url(all.skip(i as int), shard),
        decreases holdings.len() - i,
    {
        assert(all.skip(i as int)[0] == all[i as int]);
        assert(all.skip(i as int).skip(1) =~= all.skip(i + 1));
        if holdings[i].shard == shard {
            return Some(&holdings[i].url);
        }
        i = i + 1;
    }
    None
}

/// The addresses of the owners, one for each shard that has one, in the order in which the shards
/// were first reported.
pub open spec fn owner_urls(holdings: Seq<(u32, u64, Seq<char>)>) -> Seq<Seq<char>>
    decreases holdings.len(),
{
    if holdings.len() == 0 {
        Seq::empty()
    } else {
        let rest = holdings.drop_last();
        if owner_url(rest, holdings.last().0) is None {
            owner_urls(rest).push(holdings.last().2)
        } else {
            owner_urls(rest)
        }
    }
}

fn has_text(list: &Vec<String>, s: &str) -> (found: bool)
    ensures
        found == text::texts(list@).contains(s@),
{
    let mut i: usize = 0;
    while i < list.len()
        invariant
            i <= list.len(),
            forall|k: int| 0 <= k < i ==> #[trigger] text::texts(list@)[k] != s@,
        decreases list.len() - i,
    {
        assert(text::texts(list@)[i as int] == list@[i as int]@);
        if text::same(list[i].as_str(), s) {
            return true;
        }
        i = i + 1;
    }
    false
}

impl ShardOwners {
    pub open spec fn view(self) -> Seq<(u32, u64, Seq<char>)> {
        holdings_view(self.holdings@)
    }

    /// The address of the peer that owns a shard.
    pub fn url_of(&self, shard: u32) -> (url: Option<&String>)
        ensures
            match url {
                Some(url) => owner_url(self@, shard) == Some(url@),
                None => owner_url(self@, shard) is None,
            },
    {
        find_owner(&self.holdings, shard)
    }

    /// How many distinct addresses own shards.
    pub fn peers_queried(&self) -> (n: usize)
        ensures
            n == owner_urls(self@).to_set().len(),
    {
        let ghost all = self@;
        let mut distinct: Vec<String> = Vec::new();
        let mut i: usize = 0;
        assert(all.take(0) =~= Seq::empty());
        assert(text::texts(distinct@) =~= Seq::empty());
        while i < self.holdings.len()
            invariant
                i <= self.holdings.len(),
                all == self@,
                text::texts(distinct@).no_duplicates(),
                text::texts(distinct@).to_set() =~= owner_urls(all.take(i as int)).to_set(),
            decreases self.holdings.len() - i,
        {
            let ghost before = all.take(i as int);
            let ghost longer = all.take(i + 1);
            assert(longer.drop_last() =~= before);
            assert(longer.last() == all[i as int]);
            let shard: u32 = self.holdings[i].shard;
            let mut first: bool = true;
            let mut k: usize = 0;
            while k < i
                invariant
                    k <= i < self.holdings.len(),
                    all == self@,
                    first == (forall|j: int| 0 <= j < k ==> (#[trigger] all[j]).0 != shard),
                decreases i - k,
            {
                assert(all[k as int].0 == self.holdings@[k as int].shard);
                if self.holdings[k].shard == shard {
                    first = false;
                }
                k = k + 1;
            }
            proof {
                lemma_first_owner(all, i as int, shard);
            }
            if first {
                let ghost was = text::texts(distinct@);
                let ghost urls = owner_urls(before);
                let ghost url = self.holdings@[i as int].url@;
                if !has_text(&distinct, self.holdings[i].url.as_str()) {
                    distinct.push(self.holdings[i].url.clone());
                    assert(text::texts(distinct@) =~= was.push(url));
                    proof {
                        lemma_push_set(was, url);
                    }
                }
                proof {
                    lemma_push_set(urls, url);
                    assert(owner_urls(longer) == urls.push(url));
                }
            }
            i = i + 1;
        }
        assert(all.take(all.len() as int) =~= all);
        proof {
            text::texts(distinct@).unique_seq_to_set();
        }
        distinct.len()
    }
}

/// A shard has no owner among the first holdings exactly where none of them is of that shard.
proof fn lemma_first_owner(holdings: Seq<(u32, u64, Seq<char>)>, n: int, shard: u32)
    requires
        0 <= n <= holdings.len(),
    ensures
        owner_url(holdings.take(n), shard) is None <==> (forall|j: int|
            0 <= j < n ==> (#[trigger] holdings[j]).0 != shard),
    decreases n,
{
    if n == 0 {
        assert(holdings.take(0) =~= Seq::empty());
    } else {
        assert(holdings.take(n)[0] == holdings[0]);
        if holdings[0].0 != shard {
            assert(holdings.take(n).skip(1) =~= holdings.skip(1).take(n - 1));
            lemma_first_owner(holdings.skip(1), n - 1, shard);
            let rest = holdings.skip(1);
            if forall|j: int| 0 <= j < n ==> (#[trigger] holdings[j]).0 != shard {
                assert forall|j: int| 0 <= j < n - 1 implies (#[trigger] rest[j]).0 != shard by {
                    assert(rest[j] == holdings[j + 1]);
                }
            }
            if forall|j: int| 0 <= j < n - 1 ==> (#[trigger] rest[j]).0 != shard {
                assert forall|j: int| 0 <= j < n implies (#[trigger] holdings[j]).0 != shard by {
                    if j > 0 {
                        assert(rest[j - 1] == holdings[j]);
                    }
                }
            }
        }
    }
}

/// The members of a list with one more item.
proof fn lemma_push_set(list: Seq<Seq<char>>, item: Seq<char>)
    ensures
        list.push(item).to_set() =~= list.to_set().insert(item),
        list.no_duplicates() && !list.contains(item) ==> list.push(item).no_duplicates(),
{
    let more = list.push(item);
    assert forall|x: Seq<char>| more.to_set().contains(x) <==> list.to_set().insert(
        item,
    ).contains(x) by {
        if more.contains(x) {
            let k = choose|k: int| 0 <= k < more.len() && more[k] == x;
            if k < list.len() {
                assert(list[k] == x);
                assert(list.contains(x));
            }
        }
        if list.contains(x) {
            let k = choose|k: int| 0 <= k < list.len() && list[k] == x;
            assert(more[k] == x);
        }
        if x == item {
            assert(more[list.len() as int] == x);
        }
    }
}

fn known_peer(peers: &Vec<(u64, String)>, peer: u64) -> (known: bool)
    ensures
        known == knows_peer(peers_view(peers@), peer),
{
    let ghost all = peers_view(peers@);
    let mut i: usize = 0;
    while i < peers.len()
        invariant
            i <= peers.len(),
            all == peers_view(peers@),
            forall|k: int| 0 <= k < i ==> (#[trigger] all[k]).0 != peer,
        decreases peers.len() - i,
    {
        assert(all[i as int].0 == peers@[i as int].0);
        if peers[i].0 == peer {
            return true;
        }
        i = i + 1;
    }
    false
}

/// What a list of peers says.
pub open spec fn peers_view(peers: Seq<(u64, String)>) -> Seq<(u64, Seq<char>)> {
    Seq::new(peers.len(), |i: int| (peers[i].0, peers[i].1@))
}

fn add_reply(
    peers: &mut Vec<(u64, String)>,
    holdings: &mut Vec<Holding>,
    reply: &PeerReply,
    collection: &str,
    replication_factor: u32,
) -> (outcome: Result<(), String>)
    ensures
        ({
            let known = PeersView {
                peers: peers_view(old(peers)@),
                holdings: holdings_view(old(holdings)@),
            };
            let step = reply_step(known, *reply, collection@, replication_factor);
            match outcome {
                Ok(()) => match step {
                    Ok(after) => after.peers == peers_view(final(peers)@) && after.holdings
                        == holdings_view(final(holdings)@),
                    Err(_) => false,
                },
                Err(message) => step == Err::<PeersView, Seq<char>>(message@),
            }
        }),
{
    let base = text::trim_end_char(reply.url.as_str(), '/');
    let cluster = match &reply.reply {
        Ok(cluster) => cluster,
        Err(why) => {
            return Err(
                text::cat6(
                    "cannot read cluster info for ",
                    collection,
                    " from ",
                    base,
                    ": ",
                    why.as_str(),
                ),
            );
        },
    };
    let none = Json::Null;
    let result = match result_in(cluster) {
        Some(result) => result,
        None => &none,
    };
    assert(result@ == result_of(cluster@));
    let peer: u64 = match member_number(result, "peer_id") {
        Some(peer) => peer,
        None => {
            return Err(text::cat4(base, " reported no peer_id for '", collection, "'"));
        },
    };
    if known_peer(peers, peer) {
        return Ok(());
    }
    let ghost was = peers_view(peers@);
    let shards = match member_list(result, "local_shards") {
        Some(shards) => shards,
        None => {
            return Err(text::cat4(base, " reported no local_shards for '", collection, "'"));
        },
    };
    match add_local_shards(holdings, shards, peer, base, replication_factor) {
        Ok(()) => {},
        Err(message) => {
            return Err(message);
        },
    }
    peers.push((peer, base.to_owned()));
    assert(peers_view(peers@) =~= was.push((peer, base@)));
    Ok(())
}

/// Which peer to send each shard's query to, from what every supplied peer reports as local. A shard
/// that no peer claims is an error, for it could not be checked; so is one on more peers than it has
/// replicas, whose copies would diverge.
pub fn resolve_shard_urls(
    replies: &Vec<PeerReply>,
    collection: &str,
    shard_count: u32,
    replication_factor: u32,
) -> (owners: Result<ShardOwners, String>)
    ensures
        match peers_after(replies@, collection@, replication_factor) {
            Err(fault) => match owners {
                Ok(_) => false,
                Err(message) => message@ == fault,
            },
            Ok(known) => {
                let missing = unheld(known.holdings, shard_count as nat);
                match owners {
                    Ok(owners) => owners@ == known.holdings && missing.len() == 0,
                    Err(message) => missing.len() > 0 && message@ == unheld_text(
                        missing,
                        given_urls(replies@),
                    ),
                }
            },
        },
{
    let mut peers: Vec<(u64, String)> = Vec::new();
    let mut holdings: Vec<Holding> = Vec::new();
    let mut i: usize = 0;
    assert(replies@.take(0) =~= Seq::empty());
    assert(peers_view(peers@) =~= Seq::empty());
    assert(holdings_view(holdings@) =~= Seq::empty());
    while i < replies.len()
        invariant
            i <= replies.len(),
            peers_after(replies@.take(i as int), collection@, replication_factor) == Ok::<
                PeersView,
                Seq<char>,
            >(PeersView { peers: peers_view(peers@), holdings: holdings_view(holdings@) }),
        decreases replies.len() - i,
    {
        assert(replies@.take(i + 1).drop_last() =~= replies@.take(i as int));
        match add_reply(&mut peers, &mut holdings, &replies[i], collection, replication_factor) {
            Ok(()) => {},
            Err(message) => {
                proof {
                    lemma_reply_fault(replies@, i + 1, collection@, replication_factor, message@);
                }
                return Err(message);
            },
        }
        i = i + 1;
    }
    assert(replies@.take(replies@.len() as int) =~= replies@);
    let mut missing: Vec<String> = Vec::new();
    let mut shard: u32 = 0;
    assert(text::texts(missing@) =~= Seq::empty());
    while shard < shard_count
        invariant
            shard <= shard_count,
            text::texts(missing@) == unheld(holdings_view(holdings@), shard as nat),
        decreases shard_count - shard,
    {
        match find_owner(&holdings, shard) {
            Some(_) => {},
            None => {
                let ghost was = text::texts(missing@);
                missing.push(text::decimal(shard as u128));
                assert(text::texts(missing@) =~= was.push(text::decimal_text(shard as nat)));
            },
        }
        shard = shard + 1;
    }
    assert(text::texts(missing@).len() == missing@.len());
    if missing.len() > 0 {
        let mut urls: Vec<String> = Vec::new();
        let mut i: usize = 0;
        while i < replies.len()
            invariant
                i <= replies.len(),
                text::texts(urls@) == given_urls(replies@).take(i as int),
            decreases replies.len() - i,
        {
            let ghost was = text::texts(urls@);
            urls.push(replies[i].url.clone());
            assert(text::texts(urls@) =~= was.push(given_urls(replies@)[i as int]));
            assert(text::texts(urls@) =~= given_urls(replies@).take(i + 1));
            i = i + 1;
        }
        assert(text::texts(urls@) =~= given_urls(replies@));
        return Err(
            text::cat4(
                "no supplied peer holds shard(s) [",
                text::join(&missing, ", ").as_str(),
                "]. The shard-scoped read endpoint is local-only, so every peer's REST URL must be passed with --url; got ",
                text::debug_list(&urls).as_str(),
            ),
        );
    }
    Ok(ShardOwners { holdings })
}

/// Where every shard below a number has an owner, each of them has an address to ask.
pub proof fn every_shard_can_be_asked(
    holdings: Seq<(u32, u64, Seq<char>)>,
    shards: nat,
    shard: u32,
)
    requires
        unheld(holdings, shards).len() == 0,
        shard < shards <= u32::MAX,
    ensures
        owner_url(holdings, shard) is Some,
    decreases shards,
{
    if shard < shards - 1 {
        every_shard_can_be_asked(holdings, (shards - 1) as nat, shard);
    }
}

/// The shard of which another's ids are asked, to see that the endpoint reads from one shard alone.
pub fn other_shard(shard: u32, shard_count: u32) -> (other: Option<u32>)
    requires
        shard < shard_count,
    ensures
        match other {
            Some(other) => shard_count > 1 && other == (shard + 1) % shard_count as int && other
                != shard && other < shard_count,
            None => shard_count == 1,
        },
{
    if shard_count > 1 {
        if shard + 1 < shard_count {
            proof {
                vstd::arithmetic::div_mod::lemma_small_mod((shard + 1) as nat, shard_count as nat);
            }
            Some(shard + 1)
        } else {
            proof {
                vstd::arithmetic::div_mod::lemma_mod_self_0(shard_count as int);
            }
            Some(0)
        }
    } else {
        None
    }
}

/// The ids of a list that are, or are not, among others, each with a shard.
pub open spec fn ids_where(
    shard: u32,
    ids: Seq<PointId>,
    others: Seq<PointId>,
    present: bool,
) -> Seq<(u32, PointId)>
    decreases ids.len(),
{
    if ids.len() == 0 {
        Seq::empty()
    } else {
        let front = ids_where(shard, ids.drop_last(), others, present);
        if others.contains(ids.last()) == present {
            front.push((shard, ids.last()))
        } else {
            front
        }
    }
}

fn has_id(list: &Vec<PointId>, id: PointId) -> (found: bool)
    ensures
        found == list@.contains(id),
{
    let mut i: usize = 0;
    while i < list.len()
        invariant
            i <= list.len(),
            forall|k: int| 0 <= k < i ==> #[trigger] list@[k] != id,
        decreases list.len() - i,
    {
        if list[i] == id {
            return true;
        }
        i = i + 1;
    }
    false
}

fn note_ids(
    notes: &mut Vec<(u32, PointId)>,
    shard: u32,
    ids: &Vec<PointId>,
    others: &Vec<PointId>,
    present: bool,
)
    ensures
        final(notes)@ == old(notes)@ + ids_where(shard, ids@, others@, present),
{
    let ghost before = notes@;
    let mut i: usize = 0;
    assert(ids@.take(0) =~= Seq::empty());
    assert(before + ids_where(shard, ids@.take(0), others@, present) =~= before);
    while i < ids.len()
        invariant
            i <= ids.len(),
            notes@ == before + ids_where(shard, ids@.take(i as int), others@, present),
        decreases ids.len() - i,
    {
        assert(ids@.take(i + 1).drop_last() =~= ids@.take(i as int));
        if has_id(others, ids[i]) == present {
            notes.push((shard, ids[i]));
        }
        assert(notes@ =~= before + ids_where(shard, ids@.take(i + 1), others@, present));
        i = i + 1;
    }
    assert(ids@.take(ids@.len() as int) =~= ids@);
}

/// Record what one shard and another were found to hold of a shard's own ids. The shard must hold
/// them all, the other none. A shard without ids is not checked.
pub fn record_shard(
    report: &mut PlacementReport,
    shard: u32,
    ids: &Vec<PointId>,
    present: &Vec<PointId>,
    other: Option<(u32, &Vec<PointId>)>,
)
    requires
        old(report).shards_checked < usize::MAX,
        old(report).ids_checked + ids@.len() <= usize::MAX,
    ensures
        ids@.len() == 0 ==> *final(report) == *old(report),
        ids@.len() > 0 ==> {
            &&& final(report).peers_queried == old(report).peers_queried
            &&& final(report).shards_checked == old(report).shards_checked + 1
            &&& final(report).ids_checked == old(report).ids_checked + ids@.len()
            &&& final(report).misplaced@ == old(report).misplaced@ + ids_where(
                shard,
                ids@,
                present@,
                false,
            )
            &&& final(report).leaked@ == old(report).leaked@ + (match other {
                Some((other, found)) => ids_where(other, ids@, found@, true),
                None => Seq::empty(),
            })
        },
{
    if ids.len() == 0 {
        return ;
    }
    report.shards_checked = report.shards_checked + 1;
    report.ids_checked = report.ids_checked + ids.len();
    note_ids(&mut report.misplaced, shard, ids, present, false);
    let ghost before = report.leaked@;
    match other {
        Some((other, found)) => note_ids(&mut report.leaked, other, ids, found, true),
        None => {
            assert(before + Seq::empty() =~= before);
        },
    }
}

/// A check that found no scattered points says nothing.
pub fn finish_verify(report: &PlacementReport, state_path: &str) -> (outcome: Result<(), String>)
    ensures
        match outcome {
            Ok(()) => report.shards_checked > 0,
            Err(message) => report.shards_checked == 0 && message@
                == "no scattered points found under "@ + state_path@
                + "; placement cannot be verified without the scatter output the artifacts were built from"@,
        },
{
    if report.shards_checked == 0 {
        return Err(
            text::cat3(
                "no scattered points found under ",
                state_path,
                "; placement cannot be verified without the scatter output the artifacts were built from",
            ),
        );
    }
    Ok(())
}

/// A shard passes exactly where it holds all of its own ids and the other none of them.
pub proof fn a_shard_is_noted_unless_it_holds_its_own(
    shard: u32,
    ids: Seq<PointId>,
    others: Seq<PointId>,
    present: bool,
)
    ensures
        ids_where(shard, ids, others, present).len() == 0 <==> (forall|i: int|
            0 <= i < ids.len() ==> others.contains(#[trigger] ids[i]) != present),
    decreases ids.len(),
{
    if ids.len() > 0 {
        let rest = ids.drop_last();
        a_shard_is_noted_unless_it_holds_its_own(shard, rest, others, present);
        assert(ids.last() == ids[ids.len() - 1]);
        if forall|i: int| 0 <= i < ids.len() ==> others.contains(#[trigger] ids[i]) != present {
            assert forall|i: int| 0 <= i < rest.len() implies others.contains(#[trigger] rest[i])
                != present by {
                assert(rest[i] == ids[i]);
            }
        }
        if ids_where(shard, ids, others, present).len() == 0 {
            assert forall|i: int| 0 <= i < ids.len() implies others.contains(#[trigger] ids[i])
                != present by {
                if i < rest.len() {
                    assert(rest[i] == ids[i]);
                }
            }
        }
    }
}

/// Whether a file of a shard's scatter output is a part: it has no extension, unlike what stands
/// beside parts or is left of an interrupted write.
pub open spec fn is_part_name(name: Seq<char>) -> bool {
    forall|i: int| 0 < i < name.len() ==> #[trigger] name[i] != '.'
}

/// Whether ids are sampled from a file of that name.
pub fn is_sampled(name: &str) -> (sampled: bool)
    ensures
        sampled == is_part_name(name@),
{
    let chars = text::chars_of(name);
    let mut i: usize = 1;
    while i < chars.len()
        invariant
            1 <= i,
            chars@ == name@,
            forall|k: int| 0 < k < i && k < name@.len() ==> #[trigger] name@[k] != '.',
        decreases chars.len() - i,
    {
        if chars[i] == '.' {
            return false;
        }
        i = i + 1;
    }
    true
}

/// The endpoint that reads from one shard.
pub fn shard_endpoint(url: &str, collection: &str, shard: u32) -> (endpoint: String)
    ensures
        endpoint@ == text::trim_back(url@, set!['/']) + "/collections/"@ + collection@
            + "/shards/"@ + text::decimal_text(shard as nat) + "/points"@,
{
    text::cat6(
        text::trim_end_char(url, '/'),
        "/collections/",
        collection,
        "/shards/",
        text::decimal(shard as u128).as_str(),
        "/points",
    )
}

/// A point id in JSON: a number, or the text of a UUID.
pub open spec fn id_value(id: PointId) -> JsonValue {
    match id {
        PointId::NumId(n) => JsonValue::Unsigned(n),
        PointId::Uuid(uuid) => JsonValue::Text(ids::uuid_text(uuid)),
    }
}

/// The body of the request for points of a shard: their ids, and nothing else of them.
pub open spec fn request_value(ids: Seq<PointId>) -> JsonValue {
    JsonValue::Object(
        seq![
            ("ids"@, JsonValue::List(Seq::new(ids.len(), |i: int| id_value(ids[i])))),
            ("with_payload"@, JsonValue::Bool(false)),
            ("with_vector"@, JsonValue::Bool(false)),
        ],
    )
}

/// The body of the request for points of a shard.
pub fn request_body(ids: &Vec<PointId>) -> (body: Json)
    ensures
        body@ == request_value(ids@),
{
    let mut items: Vec<Json> = Vec::new();
    let mut i: usize = 0;
    while i < ids.len()
        invariant
            i <= ids.len(),
            items@.len() == i,
            forall|k: int| 0 <= k < i ==> (#[trigger] items@[k])@ == id_value(ids@[k]),
        decreases ids.len() - i,
    {
        let item = match ids[i] {
            PointId::NumId(n) => Json::Unsigned(n),
            PointId::Uuid(uuid) => Json::Text(ids::uuid_name(uuid)),
        };
        items.push(item);
        i = i + 1;
    }
    proof {
        json::lemma_items_at(items@);
        assert(json::items_view(items@) =~= Seq::new(ids@.len(), |i: int| id_value(ids@[i])));
    }
    let mut members: Vec<(String, Json)> = Vec::new();
    members.push(("ids".to_owned(), Json::List(items)));
    members.push(("with_payload".to_owned(), Json::Bool(false)));
    members.push(("with_vector".to_owned(), Json::Bool(false)));
    proof {
        json::lemma_members_at(members@);
        assert(json::members_view(members@) =~= seq![
            ("ids"@, JsonValue::List(Seq::new(ids@.len(), |i: int| id_value(ids@[i])))),
            ("with_payload"@, JsonValue::Bool(false)),
            ("with_vector"@, JsonValue::Bool(false)),
        ]);
    }
    Json::Object(members)
}

/// The id of a returned record, or what is wrong with the record.
pub open spec fn record_id(record: JsonValue) -> Result<PointId, Seq<char>> {
    match json::get_member(record, "id"@) {
        None => Err("record has no id: "@ + json::json_text(record)),
        Some(JsonValue::Unsigned(n)) => Ok(PointId::NumId(n)),
        Some(JsonValue::Text(s)) => match ids::uuid_in(s) {
            Some(uuid) => Ok(PointId::Uuid(uuid as u128)),
            None => Err("cannot parse point id "@ + json::json_text(JsonValue::Text(s))),
        },
        Some(id) => Err("cannot parse point id "@ + json::json_text(id)),
    }
}

fn read_record_id(record: &Json) -> (id: Result<PointId, String>)
    ensures
        match id {
            Ok(id) => record_id(record@) == Ok::<PointId, Seq<char>>(id),
            Err(message) => record_id(record@) == Err::<PointId, Seq<char>>(message@),
        },
{
    match record.get("id") {
        None => Err(text::cat2("record has no id: ", record.to_text().as_str())),
        Some(id) => match id {
            Json::Unsigned(n) => Ok(PointId::NumId(*n)),
            Json::Text(s) => match ids::parse_uuid(s.as_str()) {
                Ok(uuid) => Ok(PointId::Uuid(uuid)),
                Err(_) => Err(text::cat2("cannot parse point id ", id.to_text().as_str())),
            },
            _ => Err(text::cat2("cannot parse point id ", id.to_text().as_str())),
        },
    }
}

/// The ids of the returned records, up to the first that has none.
pub open spec fn record_ids(records: Seq<JsonValue>) -> Result<Seq<PointId>, Seq<char>>
    decreases records.len(),
{
    if records.len() == 0 {
        Ok(Seq::empty())
    } else {
        match record_ids(records.drop_last()) {
            Err(message) => Err(message),
            Ok(done) => match record_id(records.last()) {
                Ok(id) => Ok(done.push(id)),
                Err(message) => Err(message),
            },
        }
    }
}

proof fn lemma_record_fault(records: Seq<JsonValue>, n: int, message: Seq<char>)
    requires
        0 <= n <= records.len(),
        record_ids(records.take(n)) == Err::<Seq<PointId>, Seq<char>>(message),
    ensures
        record_ids(records) == Err::<Seq<PointId>, Seq<char>>(message),
    decreases records.len(),
{
    if n == records.len() {
        assert(records.take(n) =~= records);
    } else {
        assert(records.drop_last().take(n) =~= records.take(n));
        lemma_record_fault(records.drop_last(), n, message);
    }
}

/// The ids that a shard's reply says it holds.
pub open spec fn present_ids(endpoint: Seq<char>, reply: JsonValue) -> Result<
    Seq<PointId>,
    Seq<char>,
> {
    match list_member(reply, "result"@) {
        None => Err(endpoint + " returned no result array: "@ + json::json_text(reply)),
        Some(records) => record_ids(records),
    }
}

/// Which of the ids asked for a specific shard holds, from its reply.
pub fn ids_present_in_shard(endpoint: &str, reply: &Json) -> (present: Result<
    Vec<PointId>,
    String,
>)
    ensures
        match present {
            Ok(present) => present_ids(endpoint@, reply@) == Ok::<Seq<PointId>, Seq<char>>(
                present@,
            ),
            Err(message) => present_ids(endpoint@, reply@) == Err::<Seq<PointId>, Seq<char>>(
                message@,
            ),
        },
{
    let records = match member_list(reply, "result") {
        Some(records) => records,
        None => {
            return Err(
                text::cat3(endpoint, " returned no result array: ", reply.to_text().as_str()),
            );
        },
    };
    let ghost all = json::items_view(records@);
    proof {
        json::lemma_items_at(records@);
    }
    let mut present: Vec<PointId> = Vec::new();
    let mut i: usize = 0;
    assert(all.take(0) =~= Seq::empty());
    while i < records.len()
        invariant
            i <= records.len(),
            all == json::items_view(records@),
            list_member(reply@, "result"@) == Some(all),
            all.len() == records.len(),
            forall|k: int| 0 <= k < records@.len() ==> #[trigger] all[k] == records@[k]@,
            record_ids(all.take(i as int)) == Ok::<Seq<PointId>, Seq<char>>(present@),
        decreases records.len() - i,
    {
        assert(all.take(i + 1).drop_last() =~= all.take(i as int));
        assert(all.take(i + 1).last() == records@[i as int]@);
        match read_record_id(&records[i]) {
            Ok(id) => present.push(id),
            Err(message) => {
                proof {
                    lemma_record_fault(all, i + 1, message@);
                }
                return Err(message);
            },
        }
        i = i + 1;
    }
    assert(all.take(all.len() as int) =~= all);
    Ok(present)
}

/// A point id that a request names is read back from a reply that names it: placement is judged by
/// the ids that were asked for.
pub proof fn asked_ids_read_back(id: PointId)
    ensures
        record_id(JsonValue::Object(seq![("id"@, id_value(id))])) == Ok::<PointId, Seq<char>>(id),
{
    let members = seq![("id"@, id_value(id))];
    assert(members[0].0 == "id"@);
    assert(json::member(members, "id"@) == Some(id_value(id)));
    match id {
        PointId::NumId(_) => {},
        PointId::Uuid(uuid) => {
            ids::uuid_text_parses(uuid);
        },
    }
}

/// Where one shard's artifact should be installed.
#[derive(Debug)]
pub struct Assignment {
    pub shard: u32,
    pub peer: u64,
    pub uri: String,
}

/// Where each shard's artifact should be installed.
#[derive(Debug)]
pub struct InstallPlan {
    /// This peer, as reported by the collection it was asked about.
    pub queried_peer: u64,
    /// In the order of the shards.
    pub placement: Vec<Assignment>,
}

/// What a list of assignments says.
pub open spec fn placement_view(list: Seq<Assignment>) -> Seq<(u32, u64, Seq<char>)> {
    Seq::new(list.len(), |i: int| (list[i].shard, list[i].peer, list[i].uri@))
}

/// A placement with one more shard, in place of what was said of that shard before.
pub open spec fn assigned(
    list: Seq<(u32, u64, Seq<char>)>,
    item: (u32, u64, Seq<char>),
) -> Seq<(u32, u64, Seq<char>)>
    decreases list.len(),
{
    if list.len() == 0 || list.last().0 < item.0 {
        list.push(item)
    } else if list.last().0 == item.0 {
        list.drop_last().push(item)
    } else {
        assigned(list.drop_last(), item).push(list.last())
    }
}

/// Assigning touches one place.
proof fn lemma_assigned_at(
    list: Seq<(u32, u64, Seq<char>)>,
    item: (u32, u64, Seq<char>),
    at: int,
)
    requires
        0 <= at <= list.len(),
        forall|k: int| at <= k < list.len() ==> (#[trigger] list[k]).0 > item.0,
        at > 0 ==> list[at - 1].0 <= item.0,
    ensures
        assigned(list, item) == (if at > 0 && list[at - 1].0 == item.0 {
            list.update(at - 1, item)
        } else {
            list.insert(at, item)
        }),
    decreases list.len(),
{
    if at == list.len() {
        if list.len() == 0 || list.last().0 < item.0 {
            assert(list.insert(at, item) =~= list.push(item));
        } else {
            assert(list.update(at - 1, item) =~= list.drop_last().push(item));
        }
    } else {
        let rest = list.drop_last();
        assert(list.last() == list[list.len() - 1]);
        assert forall|k: int| at <= k < rest.len() implies (#[trigger] rest[k]).0 > item.0 by {
            assert(rest[k] == list[k]);
        }
        lemma_assigned_at(rest, item, at);
        if at > 0 && list[at - 1].0 == item.0 {
            assert(list.update(at - 1, item) =~= rest.update(at - 1, item).push(list.last()));
        } else {
            assert(list.insert(at, item) =~= rest.insert(at, item).push(list.last()));
        }
    }
}

fn assign(list: &mut Vec<Assignment>, shard: u32, peer: u64, uri: String)
    ensures
        placement_view(final(list)@) == assigned(
            placement_view(old(list)@),
            (shard, peer, uri@),
        ),
{
    let ghost before = placement_view(list@);
    let ghost item = (shard, peer, uri@);
    let mut at: usize = list.len();
    while at > 0 && list[at - 1].shard > shard
        invariant
            at <= list.len(),
            before == placement_view(list@),
            forall|k: int| at <= k < before.len() ==> (#[trigger] before[k]).0 > shard,
        decreases at,
    {
        assert(before[at - 1].0 == list@[at - 1].shard);
        at = at - 1;
    }
    proof {
        if at > 0 {
            assert(before[at - 1].0 == list@[at - 1].shard);
        }
        lemma_assigned_at(before, item, at as int);
    }
    if at > 0 && list[at - 1].shard == shard {
        list.set(at - 1, Assignment { shard, peer, uri });
        assert(placement_view(list@) =~= before.update(at - 1, item));
    } else {
        list.insert(at, Assignment { shard, peer, uri });
        assert(placement_view(list@) =~= before.insert(at as int, item));
    }
}

/// The address of a peer among the members of a reply: that of the last member whose name is the
/// peer's id and which has one.
pub open spec fn uri_among(members: Seq<(Seq<char>, JsonValue)>, peer: u64) -> Option<Seq<char>>
    decreases members.len(),
{
    if members.len() == 0 {
        None
    } else {
        let last = members.last();
        match (text::number_in(last.0, u64::MAX as nat), json::get_member(last.1, "uri"@)) {
            (Some(id), Some(JsonValue::Text(uri))) => if id == peer {
                Some(uri)
            } else {
                uri_among(members.drop_last(), peer)
            },
            _ => uri_among(members.drop_last(), peer),
        }
    }
}

/// The address of a peer in the cluster's reply.
pub open spec fn uri_of(peers: JsonValue, peer: u64) -> Option<Seq<char>> {
    match json::get_member(result_of(peers), "peers"@) {
        Some(JsonValue::Object(members)) => uri_among(members, peer),
        _ => None,
    }
}

fn find_uri(peers: &Json, peer: u64) -> (uri: Option<String>)
    ensures
        match uri {
            Some(uri) => uri_of(peers@, peer) == Some(uri@),
            None => uri_of(peers@, peer) is None,
        },
{
    let none = Json::Null;
    let result = match result_in(peers) {
        Some(result) => result,
        None => &none,
    };
    let members = match result.get("peers") {
        Some(Json::Object(members)) => members,
        _ => {
            return None;
        },
    };
    let ghost all = json::members_view(members@);
    proof {
        json::lemma_members_at(members@);
    }
    let mut i: usize = members.len();
    assert(all.take(all.len() as int) =~= all);
    while i > 0
        invariant
            i <= members.len(),
            all == json::members_view(members@),
            all.len() == members.len(),
            uri_of(peers@, peer) == uri_among(all, peer),
            forall|k: int|
                0 <= k < members@.len() ==> #[trigger] all[k] == (members@[k].0@, members@[k].1@),
            uri_among(all, peer) == uri_among(all.take(i as int), peer),
        decreases i,
    {
        assert(all.take(i as int).last() == all[i - 1]);
        assert(all.take(i as int).drop_last() =~= all.take(i - 1));
        let (key, info) = &members[i - 1];
        match (text::parse_number(key.as_str(), u64::MAX), info.get("uri")) {
            (Some(id), Some(Json::Text(uri))) => if id == peer {
                return Some(uri.clone());
            },
            _ => {},
        }
        i = i - 1;
    }
    assert(all.take(0) =~= Seq::empty());
    None
}

/// The placement behind the shards that the queried peer holds.
pub open spec fn local_placement(
    shards: Seq<JsonValue>,
    peer: u64,
    uri: Seq<char>,
) -> Seq<(u32, u64, Seq<char>)>
    decreases shards.len(),
{
    if shards.len() == 0 {
        Seq::empty()
    } else {
        let front = local_placement(shards.drop_last(), peer, uri);
        match number_member(shards.last(), "shard_id"@) {
            Some(id) => assigned(front, (id as u32, peer, uri)),
            None => front,
        }
    }
}

/// What stands for the address of another peer.
pub open spec fn remote_uri(peers: JsonValue, peer: u64) -> Seq<char> {
    match uri_of(peers, peer) {
        Some(uri) => uri,
        None => "<unknown uri for peer "@ + text::decimal_text(peer as nat) + ">"@,
    }
}

/// The placement behind the shards that other peers hold.
pub open spec fn remote_placement(
    local: Seq<(u32, u64, Seq<char>)>,
    shards: Seq<JsonValue>,
    peers: JsonValue,
) -> Seq<(u32, u64, Seq<char>)>
    decreases shards.len(),
{
    if shards.len() == 0 {
        local
    } else {
        let front = remote_placement(local, shards.drop_last(), peers);
        match (
            number_member(shards.last(), "shard_id"@),
            number_member(shards.last(), "peer_id"@),
        ) {
            (Some(id), Some(peer)) => assigned(front, (id as u32, peer, remote_uri(peers, peer))),
            _ => front,
        }
    }
}

/// The list under a member of that name, or an empty one.
pub open spec fn list_or_empty(value: JsonValue, key: Seq<char>) -> Seq<JsonValue> {
    match list_member(value, key) {
        Some(items) => items,
        None => Seq::empty(),
    }
}

/// The placement that two replies describe.
pub open spec fn placement_in(result: JsonValue, peers: JsonValue, queried: u64) -> Seq<
    (u32, u64, Seq<char>),
> {
    let uri = match uri_of(peers, queried) {
        Some(uri) => uri,
        None => "<this peer "@ + text::decimal_text(queried as nat) + ">"@,
    };
    remote_placement(
        local_placement(list_or_empty(result, "local_shards"@), queried, uri),
        list_or_empty(result, "remote_shards"@),
        peers,
    )
}

fn place_local(placement: &mut Vec<Assignment>, shards: &Vec<Json>, peer: u64, uri: &str)
    requires
        old(placement)@.len() == 0,
    ensures
        placement_view(final(placement)@) == local_placement(
            json::items_view(shards@),
            peer,
            uri@,
        ),
{
    let ghost all = json::items_view(shards@);
    proof {
        json::lemma_items_at(shards@);
    }
    let mut i: usize = 0;
    assert(all.take(0) =~= Seq::empty());
    assert(placement_view(placement@) =~= Seq::empty());
    while i < shards.len()
        invariant
            i <= shards.len(),
            all == json::items_view(shards@),
            all.len() == shards.len(),
            forall|k: int| 0 <= k < shards@.len() ==> #[trigger] all[k] == shards@[k]@,
            placement_view(placement@) == local_placement(all.take(i as int), peer, uri@),
        decreases shards.len() - i,
    {
        assert(all.take(i + 1).drop_last() =~= all.take(i as int));
        assert(all.take(i + 1).last() == shards@[i as int]@);
        match member_number(&shards[i], "shard_id") {
            Some(id) => assign(placement, short_id(id), peer, uri.to_owned()),
            None => {},
        }
        i = i + 1;
    }
    assert(all.take(all.len() as int) =~= all);
}

fn place_remote(placement: &mut Vec<Assignment>, shards: &Vec<Json>, peers: &Json)
    ensures
        placement_view(final(placement)@) == remote_placement(
            placement_view(old(placement)@),
            json::items_view(shards@),
            peers@,
        ),
{
    let ghost all = json::items_view(shards@);
    let ghost local = placement_view(placement@);
    proof {
        json::lemma_items_at(shards@);
    }
    let mut i: usize = 0;
    assert(all.take(0) =~= Seq::empty());
    while i < shards.len()
        invariant
            i <= shards.len(),
            all == json::items_view(shards@),
            all.len() == shards.len(),
            forall|k: int| 0 <= k < shards@.len() ==> #[trigger] all[k] == shards@[k]@,
            placement_view(placement@) == remote_placement(local, all.take(i as int), peers@),
        decreases shards.len() - i,
    {
        assert(all.take(i + 1).drop_last() =~= all.take(i as int));
        assert(all.take(i + 1).last() == shards@[i as int]@);
        match (member_number(&shards[i], "shard_id"), member_number(&shards[i], "peer_id")) {
            (Some(id), Some(peer)) => {
                let uri = match find_uri(peers, peer) {
                    Some(uri) => uri,
                    None => text::cat3(
                        "<unknown uri for peer ",
                        text::decimal(peer as u128).as_str(),
                        ">",
                    ),
                };
                assign(placement, short_id(id), peer, uri);
            },
            _ => {},
        }
        i = i + 1;
    }
    assert(all.take(all.len() as int) =~= all);
}

/// Why a cluster's replies give no install plan.
pub open spec fn plan_fault(
    cluster: JsonValue,
    peers: JsonValue,
    collection: Seq<char>,
) -> Option<Seq<char>> {
    match json::get_member(cluster, "result"@) {
        None => Some("collection cluster info has no result: "@ + json::json_text(cluster)),
        Some(result) => match number_member(result, "peer_id"@) {
            None => Some("collection cluster info has no peer_id"@),
            Some(queried) => if placement_in(result, peers, queried).len() == 0 {
                Some("cluster reports no shards for collection '"@ + collection + "'"@)
            } else {
                None
            },
        },
    }
}

/// Read the shard-to-peer assignment from the cluster's own replies: which peer owns which shard is
/// decided there, and cannot be guessed from directory names.
pub fn install_plan(cluster: &Json, peers: &Json, collection: &str) -> (plan: Result<
    InstallPlan,
    String,
>)
    ensures
        match plan {
            Ok(plan) => {
                &&& plan_fault(cluster@, peers@, collection@) is None
                &&& number_member(result_of(cluster@), "peer_id"@) == Some(plan.queried_peer)
                &&& placement_view(plan.placement@) == placement_in(
                    result_of(cluster@),
                    peers@,
                    plan.queried_peer,
                )
            },
            Err(message) => plan_fault(cluster@, peers@, collection@) == Some(message@),
        },
{
    let result = match result_in(cluster) {
        Some(result) => result,
        None => {
            return Err(
                text::cat2(
                    "collection cluster info has no result: ",
                    cluster.to_text().as_str(),
                ),
            );
        },
    };
    let queried: u64 = match member_number(result, "peer_id") {
        Some(queried) => queried,
        None => {
            return Err("collection cluster info has no peer_id".to_owned());
        },
    };
    let uri = match find_uri(peers, queried) {
        Some(uri) => uri,
        None => text::cat3("<this peer ", text::decimal(queried as u128).as_str(), ">"),
    };
    let mut placement: Vec<Assignment> = Vec::new();
    match member_list(result, "local_shards") {
        Some(shards) => place_local(&mut placement, shards, queried, uri.as_str()),
        None => {
            assert(placement_view(placement@) =~= Seq::empty());
        },
    }
    match member_list(result, "remote_shards") {
        Some(shards) => place_remote(&mut placement, shards, peers),
        None => {},
    }
    assert(placement_view(placement@).len() == placement@.len());
    if placement.len() == 0 {
        return Err(text::cat3("cluster reports no shards for collection '", collection, "'"));
    }
    Ok(InstallPlan { queried_peer: queried, placement })
}

/// An assigned shard is found under its id, and the assignments stay in the order of their shards,
/// each shard once.
pub proof fn each_shard_is_assigned_once(
    list: Seq<(u32, u64, Seq<char>)>,
    item: (u32, u64, Seq<char>),
)
    requires
        forall|i: int, j: int|
            0 <= i < j < list.len() ==> (#[trigger] list[i]).0 < (#[trigger] list[j]).0,
    ensures
        forall|i: int, j: int|
            0 <= i < j < assigned(list, item).len() ==> (#[trigger] assigned(list, item)[i]).0 < (
            #[trigger] assigned(list, item)[j]).0,
        assigned(list, item).contains(item),
        forall|i: int|
            0 <= i < assigned(list, item).len() ==> (#[trigger] assigned(list, item)[i]).0
                <= item.0 || (list.len() > 0 && assigned(list, item)[i].0 <= list.last().0),
    decreases list.len(),
{
    let after = assigned(list, item);
    if list.len() == 0 || list.last().0 < item.0 {
        assert(after[list.len() as int] == item);
        assert forall|i: int, j: int| 0 <= i < j < after.len() implies (#[trigger] after[i]).0 < (
        #[trigger] after[j]).0 by {
            if j < list.len() {
                assert(list[i].0 < list[j].0);
            } else if i < list.len() - 1 {
                assert(list[i].0 < list[list.len() - 1].0);
            }
        }
    } else if list.last().0 == item.0 {
        assert(after[list.len() - 1] == item);
        assert forall|i: int, j: int| 0 <= i < j < after.len() implies (#[trigger] after[i]).0 < (
        #[trigger] after[j]).0 by {
            assert(list[i].0 < list[j].0);
        }
    } else {
        let rest = list.drop_last();
        assert forall|i: int, j: int| 0 <= i < j < rest.len() implies (#[trigger] rest[i]).0 < (
        #[trigger] rest[j]).0 by {
            assert(list[i].0 < list[j].0);
        }
        each_shard_is_assigned_once(rest, item);
        let front = assigned(rest, item);
        let k = choose|k: int| 0 <= k < front.len() && front[k] == item;
        assert(after[k] == item);
        assert forall|i: int, j: int| 0 <= i < j < after.len() implies (#[trigger] after[i]).0 < (
        #[trigger] after[j]).0 by {
            if j < front.len() {
                assert(front[i].0 < front[j].0);
            } else {
                assert(after[i] == front[i]);
                if rest.len() > 0 {
                    assert(rest.last() == list[list.len() - 2]);
                    assert(list[list.len() - 2].0 < list[list.len() - 1].0);
                }
            }
        }
    }
}

/// The peer that a reply is from.
pub open spec fn stated_peer(reply: PeerReply) -> Option<u64> {
    match reply.reply {
        Ok(cluster) => match json::get_member(cluster@, "result"@) {
            Some(result) => match json::get_member(result, "peer_id"@) {
                Some(JsonValue::Unsigned(peer)) => Some(peer),
                _ => None,
            },
            None => None,
        },
        Err(_) => None,
    }
}

/// What a reply lists as local to its peer.
pub open spec fn stated_locals(reply: PeerReply) -> Option<Seq<JsonValue>> {
    match reply.reply {
        Ok(cluster) => match json::get_member(cluster@, "result"@) {
            Some(result) => match json::get_member(result, "local_shards"@) {
                Some(JsonValue::List(items)) => Some(items),
                _ => None,
            },
            None => None,
        },
        Err(_) => None,
    }
}

/// Whether an entry of a list names a shard. The id is cut to the width of a shard id.
pub open spec fn names_shard(entry: JsonValue, shard: u32) -> bool {
    json::get_member(entry, "shard_id"@) matches Some(JsonValue::Unsigned(id)) && id as u32 == shard
}

/// Whether a reply lists a shard as local to its peer.
pub open spec fn lists_locally(reply: PeerReply, shard: u32) -> bool {
    stated_locals(reply) matches Some(items) && exists|j: int|
        0 <= j < items.len() && names_shard(#[trigger] items[j], shard)
}

/// Whether a reply is the first from its peer. A peer can be given under several addresses, and
/// counts once.
pub open spec fn is_first_reply(replies: Seq<PeerReply>, k: int) -> bool {
    forall|m: int| 0 <= m < k ==> stated_peer(#[trigger] replies[m]) != stated_peer(replies[k])
}

/// Whether a holding is one that a peer reported: its first reply lists the shard, and the address
/// is that under which it was given, without the slashes at the end.
pub open spec fn was_reported(replies: Seq<PeerReply>, holding: (u32, u64, Seq<char>)) -> bool {
    exists|k: int|
        0 <= k < replies.len() && is_first_reply(replies, k) && stated_peer(#[trigger] replies[k])
            == Some(holding.1) && lists_locally(replies[k], holding.0) && holding.2
            == text::trim_back(replies[k].url@, set!['/'])
}

/// The holdings behind a list of local shards are those before it and one for each shard that it
/// names.
proof fn lemma_local_holdings(
    holdings: Seq<(u32, u64, Seq<char>)>,
    shards: Seq<JsonValue>,
    peer: u64,
    url: Seq<char>,
    replication_factor: u32,
)
    requires
        local_step(holdings, shards, peer, url, replication_factor) is Ok,
    ensures
        forall|held: (u32, u64, Seq<char>)| #[trigger]
            (local_step(holdings, shards, peer, url, replication_factor)->Ok_0).contains(held) <==> (
            holdings.contains(held) || (held.1 == peer && held.2 == url && exists|j: int|
                0 <= j < shards.len() && names_shard(#[trigger] shards[j], held.0))),
    decreases shards.len(),
{
    let after = local_step(holdings, shards, peer, url, replication_factor)->Ok_0;
    if shards.len() > 0 {
        let rest = shards.drop_last();
        lemma_local_holdings(holdings, rest, peer, url, replication_factor);
        let done = local_step(holdings, rest, peer, url, replication_factor)->Ok_0;
        let last = shards.last();
        assert(last == shards[shards.len() - 1]);
        assert forall|held: (u32, u64, Seq<char>)| #[trigger] after.contains(held) <==> (
        holdings.contains(held) || (held.1 == peer && held.2 == url && exists|j: int|
            0 <= j < shards.len() && names_shard(#[trigger] shards[j], held.0))) by {
            if exists|j: int| 0 <= j < rest.len() && names_shard(#[trigger] rest[j], held.0) {
                let j = choose|j: int| 0 <= j < rest.len() && names_shard(#[trigger] rest[j], held.0);
                assert(names_shard(shards[j], held.0));
            }
            if exists|j: int| 0 <= j < shards.len() && names_shard(#[trigger] shards[j], held.0) {
                let j = choose|j: int|
                    0 <= j < shards.len() && names_shard(#[trigger] shards[j], held.0);
                if j < rest.len() {
                    assert(names_shard(rest[j], held.0));
                }
            }
            match number_member(last, "shard_id"@) {
                Some(id) => {
                    let item = (id as u32, peer, url);
                    assert(after == done.push(item));
                    assert(after[done.len() as int] == item);
                    if done.contains(held) {
                        let i = done.index_of(held);
                        assert(after[i] == held);
                    }
                    if after.contains(held) && held != item {
                        let i = after.index_of(held);
                        assert(done[i] == held);
                    }
                    if names_shard(last, held.0) && held.1 == peer && held.2 == url {
                        assert(held == item);
                    }
                    assert(names_shard(last, item.0));
                },
                None => {},
            }
        }
    }
}

/// What one accepted reply adds.
proof fn lemma_reply_adds(
    known: PeersView,
    reply: PeerReply,
    collection: Seq<char>,
    replication_factor: u32,
    after: PeersView,
)
    requires
        reply_step(known, reply, collection, replication_factor) == Ok::<PeersView, Seq<char>>(
            after,
        ),
    ensures
        stated_peer(reply) is Some,
        knows_peer(known.peers, stated_peer(reply)->0) ==> after == known,
        !knows_peer(known.peers, stated_peer(reply)->0) ==> {
            let url = text::trim_back(reply.url@, set!['/']);
            &&& stated_locals(reply) is Some
            &&& after.peers == known.peers.push((stated_peer(reply)->0, url))
            &&& forall|held: (u32, u64, Seq<char>)| #[trigger]
                after.holdings.contains(held) <==> (known.holdings.contains(held) || (Some(held.1)
                    == stated_peer(reply) && held.2 == url && lists_locally(reply, held.0)))
        },
{
    let peer = stated_peer(reply)->0;
    let url = text::trim_back(reply.url@, set!['/']);
    if !knows_peer(known.peers, peer) {
        let shards = stated_locals(reply)->0;
        lemma_local_holdings(known.holdings, shards, peer, url, replication_factor);
        assert(local_step(known.holdings, shards, peer, url, replication_factor) == Ok::<
            Seq<(u32, u64, Seq<char>)>,
            Seq<char>,
        >(after.holdings));
    }
}

/// A reply stays the first of its peer when another comes behind it.
proof fn lemma_first_in_front(replies: Seq<PeerReply>, k: int)
    requires
        0 <= k < replies.len() - 1,
    ensures
        is_first_reply(replies, k) == is_first_reply(replies.drop_last(), k),
{
    let rest = replies.drop_last();
    assert forall|m: int| 0 <= m <= k implies #[trigger] replies[m] == rest[m] by {}
    if is_first_reply(replies, k) {
        assert forall|m: int| 0 <= m < k implies stated_peer(#[trigger] rest[m]) != stated_peer(
            rest[k],
        ) by {
            assert(replies[m] == rest[m]);
        }
    }
    if is_first_reply(rest, k) {
        assert forall|m: int| 0 <= m < k implies stated_peer(#[trigger] replies[m]) != stated_peer(
            replies[k],
        ) by {
            assert(replies[m] == rest[m]);
        }
    }
}

/// A holding is reported in a list of replies exactly where it is in front of the last, or the last is
/// the first of its peer and lists it.
proof fn lemma_reported_last(replies: Seq<PeerReply>, held: (u32, u64, Seq<char>))
    requires
        replies.len() > 0,
    ensures
        was_reported(replies, held) <==> (was_reported(replies.drop_last(), held) || (
        is_first_reply(replies, replies.len() - 1) && stated_peer(replies.last()) == Some(held.1)
            && lists_locally(replies.last(), held.0) && held.2 == text::trim_back(
            replies.last().url@,
            set!['/'],
        ))),
{
    let rest = replies.drop_last();
    let n = replies.len() - 1;
    assert(replies[n] == replies.last());
    if was_reported(rest, held) {
        let k = choose|k: int|
            0 <= k < rest.len() && is_first_reply(rest, k) && stated_peer(#[trigger] rest[k])
                == Some(held.1) && lists_locally(rest[k], held.0) && held.2 == text::trim_back(
                rest[k].url@,
                set!['/'],
            );
        assert(replies[k] == rest[k]);
        lemma_first_in_front(replies, k);
    }
    if was_reported(replies, held) {
        let k = choose|k: int|
            0 <= k < replies.len() && is_first_reply(replies, k) && stated_peer(
                #[trigger] replies[k],
            ) == Some(held.1) && lists_locally(replies[k], held.0) && held.2 == text::trim_back(
                replies[k].url@,
                set!['/'],
            );
        if k < n {
            assert(replies[k] == rest[k]);
            lemma_first_in_front(replies, k);
        }
    }
}

/// Whether a reply of that peer is in the list.
spec fn heard_of(replies: Seq<PeerReply>, peer: u64) -> bool {
    exists|k: int| 0 <= k < replies.len() && stated_peer(#[trigger] replies[k]) == Some(peer)
}

proof fn lemma_heard_last(replies: Seq<PeerReply>, peer: u64)
    requires
        replies.len() > 0,
    ensures
        heard_of(replies, peer) <==> heard_of(replies.drop_last(), peer) || stated_peer(
            replies.last(),
        ) == Some(peer),
{
    let rest = replies.drop_last();
    assert(replies[replies.len() - 1] == replies.last());
    if heard_of(rest, peer) {
        let k = choose|k: int| 0 <= k < rest.len() && stated_peer(#[trigger] rest[k]) == Some(peer);
        assert(replies[k] == rest[k]);
    }
    if heard_of(replies, peer) {
        let k = choose|k: int|
            0 <= k < replies.len() && stated_peer(#[trigger] replies[k]) == Some(peer);
        if k < rest.len() {
            assert(replies[k] == rest[k]);
        }
    }
}

/// What the replies say together: every reply states its peer, a peer is known exactly where one
/// is from it, and a shard is held exactly as the first reply of some peer lists it.
proof fn lemma_peers_after(
    replies: Seq<PeerReply>,
    collection: Seq<char>,
    replication_factor: u32,
    after: PeersView,
)
    requires
        peers_after(replies, collection, replication_factor) == Ok::<PeersView, Seq<char>>(after),
    ensures
        forall|k: int| 0 <= k < replies.len() ==> stated_peer(#[trigger] replies[k]) is Some,
        forall|k: int|
            0 <= k < replies.len() && is_first_reply(replies, k) ==> stated_locals(
                #[trigger] replies[k],
            ) is Some,
        forall|peer: u64| #[trigger] knows_peer(after.peers, peer) <==> heard_of(replies, peer),
        forall|held: (u32, u64, Seq<char>)| #[trigger]
            after.holdings.contains(held) <==> was_reported(replies, held),
    decreases replies.len(),
{
    if replies.len() > 0 {
        let rest = replies.drop_last();
        let last = replies.last();
        let n = replies.len() - 1;
        let known = peers_after(rest, collection, replication_factor)->Ok_0;
        lemma_peers_after(rest, collection, replication_factor, known);
        lemma_reply_adds(known, last, collection, replication_factor, after);
        let peer = stated_peer(last)->0;
        let again = knows_peer(known.peers, peer);
        assert(again == !is_first_reply(replies, n)) by {
            assert(again == heard_of(rest, peer));
            if again {
                let k = choose|k: int|
                    0 <= k < rest.len() && stated_peer(#[trigger] rest[k]) == Some(peer);
                assert(stated_peer(replies[k]) == stated_peer(replies[n]));
            } else {
                assert forall|m: int| 0 <= m < n implies stated_peer(#[trigger] replies[m])
                    != stated_peer(replies[n]) by {
                    assert(stated_peer(rest[m]) != Some(peer));
                }
            }
        }
        assert forall|k: int| 0 <= k < replies.len() implies stated_peer(
            #[trigger] replies[k],
        ) is Some by {
            if k < n {
                assert(stated_peer(rest[k]) is Some);
            }
        }
        assert forall|k: int|
            0 <= k < replies.len() && is_first_reply(replies, k) implies stated_locals(
            #[trigger] replies[k],
        ) is Some by {
            if k < n {
                lemma_first_in_front(replies, k);
                assert(stated_locals(rest[k]) is Some);
            }
        }
        assert forall|p: u64| #[trigger] knows_peer(after.peers, p) <==> heard_of(replies, p) by {
            lemma_heard_last(replies, p);
            assert(knows_peer(known.peers, p) == heard_of(rest, p));
            if !again {
                lemma_known_pushed(known.peers, after.peers.last(), p);
            }
        }
        assert forall|held: (u32, u64, Seq<char>)| #[trigger]
            after.holdings.contains(held) <==> was_reported(replies, held) by {
            lemma_reported_last(replies, held);
            assert(known.holdings.contains(held) <==> was_reported(rest, held));
        }
    }
}

proof fn lemma_known_pushed(peers: Seq<(u64, Seq<char>)>, item: (u64, Seq<char>), peer: u64)
    ensures
        knows_peer(peers.push(item), peer) <==> knows_peer(peers, peer) || item.0 == peer,
{
    let more = peers.push(item);
    assert(more[peers.len() as int] == item);
    if knows_peer(peers, peer) {
        let i = choose|i: int| 0 <= i < peers.len() && (#[trigger] peers[i]).0 == peer;
        assert(more[i].0 == peer);
    }
    if knows_peer(more, peer) {
        let i = choose|i: int| 0 <= i < more.len() && (#[trigger] more[i]).0 == peer;
        if i < peers.len() {
            assert(peers[i].0 == peer);
        }
    }
}

/// A shard has an address exactly where it has a holding, and the address is that of one.
proof fn lemma_owner_holds(holdings: Seq<(u32, u64, Seq<char>)>, shard: u32)
    ensures
        owner_url(holdings, shard) is Some <==> exists|i: int|
            0 <= i < holdings.len() && (#[trigger] holdings[i]).0 == shard,
        owner_url(holdings, shard) matches Some(url) ==> exists|i: int|
            0 <= i < holdings.len() && (#[trigger] holdings[i]).0 == shard && holdings[i].2 == url,
    decreases holdings.len(),
{
    if holdings.len() > 0 {
        let rest = holdings.skip(1);
        lemma_owner_holds(rest, shard);
        if holdings[0].0 == shard {
            assert(holdings[0].0 == shard && holdings[0].2 == holdings[0].2);
        } else {
            if exists|i: int| 0 <= i < holdings.len() && (#[trigger] holdings[i]).0 == shard {
                let i = choose|i: int|
                    0 <= i < holdings.len() && (#[trigger] holdings[i]).0 == shard;
                assert(rest[i - 1].0 == shard);
            }
            if owner_url(rest, shard) is Some {
                let url = owner_url(rest, shard)->0;
                let i = choose|i: int|
                    0 <= i < rest.len() && (#[trigger] rest[i]).0 == shard && rest[i].2 == url;
                assert(holdings[i + 1].0 == shard && holdings[i + 1].2 == url);
            }
        }
    }
}

/// Where the replies are accepted, a shard has an owner exactly where some reached peer lists it
/// among its local shards, and the owner's address is that of a peer which does.
pub proof fn a_shard_is_asked_of_a_peer_that_lists_it(
    replies: Seq<PeerReply>,
    collection: Seq<char>,
    replication_factor: u32,
    shard: u32,
)
    requires
        peers_after(replies, collection, replication_factor) is Ok,
    ensures
        ({
            let known = peers_after(replies, collection, replication_factor)->Ok_0;
            &&& owner_url(known.holdings, shard) is Some <==> exists|k: int|
                0 <= k < replies.len() && is_first_reply(replies, k) && lists_locally(
                    #[trigger] replies[k],
                    shard,
                )
            &&& owner_url(known.holdings, shard) matches Some(url) ==> exists|k: int|
                0 <= k < replies.len() && is_first_reply(replies, k) && lists_locally(
                    #[trigger] replies[k],
                    shard,
                ) && url == text::trim_back(replies[k].url@, set!['/'])
        }),
{
    let known = peers_after(replies, collection, replication_factor)->Ok_0;
    lemma_peers_after(replies, collection, replication_factor, known);
    lemma_owner_holds(known.holdings, shard);
    if exists|k: int|
        0 <= k < replies.len() && is_first_reply(replies, k) && lists_locally(
            #[trigger] replies[k],
            shard,
        ) {
        let k = choose|k: int|
            0 <= k < replies.len() && is_first_reply(replies, k) && lists_locally(
                #[trigger] replies[k],
                shard,
            );
        let held = (
            shard,
            stated_peer(replies[k])->0,
            text::trim_back(replies[k].url@, set!['/']),
        );
        assert(stated_peer(replies[k]) == Some(held.1));
        assert(was_reported(replies, held));
        assert(known.holdings.contains(held));
        let i = known.holdings.index_of(held);
        assert(known.holdings[i].0 == shard);
    }
    if owner_url(known.holdings, shard) is Some {
        let url = owner_url(known.holdings, shard)->0;
        let i = choose|i: int|
            0 <= i < known.holdings.len() && (#[trigger] known.holdings[i]).0 == shard
                && known.holdings[i].2 == url;
        let held = known.holdings[i];
        assert(known.holdings.contains(held));
        assert(was_reported(replies, held));
        let k = choose|k: int|
            0 <= k < replies.len() && is_first_reply(replies, k) && stated_peer(
                #[trigger] replies[k],
            ) == Some(held.1) && lists_locally(replies[k], held.0) && held.2 == text::trim_back(
                replies[k].url@,
                set!['/'],
            );
        assert(lists_locally(replies[k], shard) && url == text::trim_back(
            replies[k].url@,
            set!['/'],
        ));
    }
}

/// Every reply that is accepted states its peer, and the first of each peer lists its local shards.
pub proof fn accepted_replies_state_their_peers(
    replies: Seq<PeerReply>,
    collection: Seq<char>,
    replication_factor: u32,
    k: int,
)
    requires
        peers_after(replies, collection, replication_factor) is Ok,
        0 <= k < replies.len(),
    ensures
        replies[k].reply is Ok,
        stated_peer(replies[k]) is Some,
        is_first_reply(replies, k) ==> stated_locals(replies[k]) is Some,
{
    let known = peers_after(replies, collection, replication_factor)->Ok_0;
    lemma_peers_after(replies, collection, replication_factor, known);
}

/// How many holdings of a shard there are.
pub open spec fn times_held(holdings: Seq<(u32, u64, Seq<char>)>, shard: u32) -> nat {
    holdings.filter(|held: (u32, u64, Seq<char>)| held.0 == shard).len()
}

proof fn lemma_times_held(holdings: Seq<(u32, u64, Seq<char>)>, shard: u32)
    ensures
        holder_texts(holdings, shard).len() == times_held(holdings, shard),
    decreases holdings.len(),
{
    reveal(Seq::filter);
    if holdings.len() > 0 {
        lemma_times_held(holdings.drop_last(), shard);
    }
}

/// One holding more is one time more for its shard.
proof fn lemma_held_once_more(
    holdings: Seq<(u32, u64, Seq<char>)>,
    item: (u32, u64, Seq<char>),
    shard: u32,
)
    ensures
        times_held(holdings.push(item), shard) == times_held(holdings, shard) + (if item.0
            == shard {
            1nat
        } else {
            0
        }),
{
    reveal(Seq::filter);
    assert(holdings.push(item).drop_last() =~= holdings);
}

/// A peer's list is taken under a stricter limit exactly where no shard is then held more often than
/// that, and gives the same holdings.
proof fn lemma_stricter_step(
    holdings: Seq<(u32, u64, Seq<char>)>,
    shards: Seq<JsonValue>,
    peer: u64,
    url: Seq<char>,
    strict: u32,
    loose: u32,
)
    requires
        strict <= loose,
        local_step(holdings, shards, peer, url, loose) is Ok,
        forall|shard: u32| #[trigger] times_held(holdings, shard) <= strict,
    ensures
        ({
            let loosely = local_step(holdings, shards, peer, url, loose)->Ok_0;
            &&& local_step(holdings, shards, peer, url, strict) is Ok ==> local_step(
                holdings,
                shards,
                peer,
                url,
                strict,
            ) == local_step(holdings, shards, peer, url, loose)
            &&& local_step(holdings, shards, peer, url, strict) is Ok <==> forall|shard: u32|
                #[trigger] times_held(loosely, shard) <= strict
            &&& forall|shard: u32| #[trigger]
                times_held(loosely, shard) >= times_held(holdings, shard)
        }),
    decreases shards.len(),
{
    if shards.len() > 0 {
        let rest = shards.drop_last();
        lemma_stricter_step(holdings, rest, peer, url, strict, loose);
        let done = local_step(holdings, rest, peer, url, loose)->Ok_0;
        let loosely = local_step(holdings, shards, peer, url, loose)->Ok_0;
        match number_member(shards.last(), "shard_id"@) {
            None => {},
            Some(id) => {
                let item = (id as u32, peer, url);
                assert(loosely == done.push(item));
                lemma_times_held(loosely, item.0);
                assert forall|shard: u32| #[trigger] times_held(loosely, shard) >= times_held(
                    done,
                    shard,
                ) && (shard != item.0 ==> times_held(loosely, shard) == times_held(
                    done,
                    shard,
                )) by {
                    lemma_held_once_more(done, item, shard);
                }
                if forall|shard: u32| #[trigger] times_held(loosely, shard) <= strict {
                    assert forall|shard: u32| #[trigger] times_held(done, shard) <= strict by {
                        assert(times_held(loosely, shard) <= strict);
                    }
                }
                assert forall|shard: u32| #[trigger] times_held(loosely, shard) >= times_held(
                    holdings,
                    shard,
                ) by {
                    assert(times_held(done, shard) >= times_held(holdings, shard));
                }
                if local_step(holdings, shards, peer, url, strict) is Ok {
                    assert forall|shard: u32| #[trigger] times_held(loosely, shard) <= strict by {
                        assert(times_held(done, shard) <= strict);
                    }
                }
            },
        }
    }
}

/// What a lower replication factor refuses: with one under which the replies are accepted, they are
/// accepted under a lower one exactly where no shard is held more often than it allows, and say the
/// same.
pub proof fn a_shard_on_more_peers_than_replicas_is_refused(
    replies: Seq<PeerReply>,
    collection: Seq<char>,
    strict: u32,
    loose: u32,
)
    requires
        strict <= loose,
        peers_after(replies, collection, loose) is Ok,
    ensures
        peers_after(replies, collection, strict) is Ok ==> peers_after(replies, collection, strict)
            == peers_after(replies, collection, loose),
        peers_after(replies, collection, strict) is Ok <==> forall|shard: u32| #[trigger]
            times_held((peers_after(replies, collection, loose)->Ok_0).holdings, shard) <= strict,
    decreases replies.len(),
{
    if replies.len() == 0 {
        reveal(Seq::filter);
    } else {
        let rest = replies.drop_last();
        a_shard_on_more_peers_than_replicas_is_refused(rest, collection, strict, loose);
        let known = peers_after(rest, collection, loose)->Ok_0;
        let after = peers_after(replies, collection, loose)->Ok_0;
        let last = replies.last();
        let result = result_of(last.reply->Ok_0@);
        let peer = number_member(result, "peer_id"@)->0;
        if !knows_peer(known.peers, peer) {
            let shards = list_member(result, "local_shards"@)->0;
            let base = text::trim_back(last.url@, set!['/']);
            if forall|shard: u32| #[trigger] times_held(known.holdings, shard) <= strict {
                lemma_stricter_step(known.holdings, shards, peer, base, strict, loose);
            } else {
                lemma_only_more(known.holdings, shards, peer, base, loose);
                let shard = choose|shard: u32| times_held(known.holdings, shard) > strict;
                assert(times_held(after.holdings, shard) > strict);
            }
        }
    }
}

proof fn lemma_only_more(
    holdings: Seq<(u32, u64, Seq<char>)>,
    shards: Seq<JsonValue>,
    peer: u64,
    url: Seq<char>,
    limit: u32,
)
    requires
        local_step(holdings, shards, peer, url, limit) is Ok,
    ensures
        forall|shard: u32| #[trigger]
            times_held(local_step(holdings, shards, peer, url, limit)->Ok_0, shard) >= times_held(
                holdings,
                shard,
            ),
    decreases shards.len(),
{
    if shards.len() > 0 {
        let rest = shards.drop_last();
        lemma_only_more(holdings, rest, peer, url, limit);
        let done = local_step(holdings, rest, peer, url, limit)->Ok_0;
        let after = local_step(holdings, shards, peer, url, limit)->Ok_0;
        match number_member(shards.last(), "shard_id"@) {
            None => {},
            Some(id) => {
                assert forall|shard: u32| #[trigger] times_held(after, shard) >= times_held(
                    holdings,
                    shard,
                ) by {
                    assert(times_held(done, shard) >= times_held(holdings, shard));
                    lemma_held_once_more(done, (id as u32, peer, url), shard);
                }
            },
        }
    }
}

/// The shards that nobody can be asked of are exactly those below the number without an owner, in
/// their order.
pub proof fn every_shard_without_an_owner_is_named(
    holdings: Seq<(u32, u64, Seq<char>)>,
    shards: nat,
    shard: u32,
)
    requires
        shard < shards <= u32::MAX,
    ensures
        unheld(holdings, shards).contains(text::decimal_text(shard as nat)) <==> owner_url(
            holdings,
            shard,
        ) is None,
        unheld(holdings, shards).len() <= shards,
{
    lemma_unheld(holdings, shards, text::decimal_text(shard as nat));
    if unheld(holdings, shards).contains(text::decimal_text(shard as nat)) {
        let k = choose|k: nat|
            k < shards && text::decimal_text(shard as nat) == #[trigger] text::decimal_text(k)
                && owner_url(holdings, k as u32) is None;
        text::decimal_reads_back(k);
        text::decimal_reads_back(shard as nat);
    }
}

proof fn lemma_unheld(holdings: Seq<(u32, u64, Seq<char>)>, shards: nat, name: Seq<char>)
    requires
        shards <= u32::MAX,
    ensures
        unheld(holdings, shards).contains(name) <==> exists|k: nat|
            k < shards && name == #[trigger] text::decimal_text(k) && owner_url(
                holdings,
                k as u32,
            ) is None,
        unheld(holdings, shards).len() <= shards,
    decreases shards,
{
    if shards > 0 {
        let last = (shards - 1) as nat;
        let front = unheld(holdings, last);
        let all = unheld(holdings, shards);
        lemma_unheld(holdings, last, name);
        if front.contains(name) {
            let i = front.index_of(name);
            assert(all[i] == name);
        }
        if owner_url(holdings, last as u32) is None {
            assert(all[all.len() - 1] == text::decimal_text(last));
            if all.contains(name) && name != text::decimal_text(last) {
                let i = all.index_of(name);
                assert(front[i] == name);
            }
        }
    }
}

/// The ids noted of a shard are exactly those of the list that are, or are not, among the others,
/// each under that shard.
pub proof fn every_stray_id_is_noted(
    shard: u32,
    ids: Seq<PointId>,
    others: Seq<PointId>,
    present: bool,
    note: (u32, PointId),
)
    ensures
        ids_where(shard, ids, others, present).contains(note) <==> note.0 == shard && ids.contains(
            note.1,
        ) && others.contains(note.1) == present,
    decreases ids.len(),
{
    let all = ids_where(shard, ids, others, present);
    if ids.len() > 0 {
        let rest = ids.drop_last();
        let front = ids_where(shard, rest, others, present);
        every_stray_id_is_noted(shard, rest, others, present, note);
        assert(ids[ids.len() - 1] == ids.last());
        if rest.contains(note.1) {
            let i = rest.index_of(note.1);
            assert(ids[i] == note.1);
        }
        if ids.contains(note.1) && note.1 != ids.last() {
            let i = ids.index_of(note.1);
            assert(rest[i] == note.1);
        }
        if front.contains(note) {
            let i = front.index_of(note);
            assert(all[i] == note);
        }
        if others.contains(ids.last()) == present {
            assert(all[all.len() - 1] == (shard, ids.last()));
            if all.contains(note) && note != (shard, ids.last()) {
                let i = all.index_of(note);
                assert(front[i] == note);
            }
        }
    }
}

/// A request names every id that is asked for, in order, and asks for neither payload nor vectors.
pub proof fn a_request_names_its_ids(ids: Seq<PointId>)
    ensures
        json::get_member(request_value(ids), "ids"@) matches Some(JsonValue::List(items)) && {
            &&& items.len() == ids.len()
            &&& forall|i: int|
                0 <= i < ids.len() ==> match ids[i] {
                    PointId::NumId(n) => (#[trigger] items[i]) == JsonValue::Unsigned(n),
                    PointId::Uuid(uuid) => items[i] == JsonValue::Text(ids::uuid_text(uuid)),
                }
        },
        json::get_member(request_value(ids), "with_payload"@) == Some(JsonValue::Bool(false)),
        json::get_member(request_value(ids), "with_vector"@) == Some(JsonValue::Bool(false)),
{
    reveal_strlit("ids");
    reveal_strlit("with_payload");
    reveal_strlit("with_vector");
    reveal_with_fuel(json::member, 4);
    let members = request_value(ids)->Object_0;
    assert(members.skip(1)[0] == members[1]);
    assert(members.skip(1).skip(1)[0] == members[2]);
    assert("with_payload"@.len() != "with_vector"@.len());
    assert("with_payload"@.len() != "ids"@.len());
    assert("with_vector"@.len() != "ids"@.len());
}

/// A reply is read exactly where its result is a list of records that each state an id, and then
/// gives one id for each record: a number, or the UUID that a text spells.
pub proof fn every_returned_record_is_read(endpoint: Seq<char>, reply: JsonValue)
    ensures
        present_ids(endpoint, reply) matches Ok(found) ==> (json::get_member(
            reply,
            "result"@,
        ) matches Some(JsonValue::List(records)) && {
            &&& found.len() == records.len()
            &&& forall|i: int|
                0 <= i < found.len() ==> match #[trigger] found[i] {
                    PointId::NumId(n) => json::get_member(records[i], "id"@) == Some(
                        JsonValue::Unsigned(n),
                    ),
                    PointId::Uuid(uuid) => json::get_member(records[i], "id"@) matches Some(
                        JsonValue::Text(s),
                    ) && (ids::uuid_in(s) matches Some(n) && n as u128 == uuid),
                }
        }),
        (json::get_member(reply, "result"@) matches Some(JsonValue::List(records)) && forall|
            i: int,
        |
            0 <= i < records.len() ==> match json::get_member(#[trigger] records[i], "id"@) {
                Some(JsonValue::Unsigned(_)) => true,
                Some(JsonValue::Text(s)) => ids::uuid_in(s) is Some,
                _ => false,
            }) ==> present_ids(endpoint, reply) is Ok,
{
    match json::get_member(reply, "result"@) {
        Some(JsonValue::List(records)) => lemma_records_read(records),
        _ => {},
    }
}

proof fn lemma_records_read(records: Seq<JsonValue>)
    ensures
        record_ids(records) matches Ok(found) ==> {
            &&& found.len() == records.len()
            &&& forall|i: int|
                0 <= i < found.len() ==> record_id(records[i]) == Ok::<PointId, Seq<char>>(
                    #[trigger] found[i],
                )
        },
        (forall|i: int| 0 <= i < records.len() ==> record_id(#[trigger] records[i]) is Ok)
            ==> record_ids(records) is Ok,
    decreases records.len(),
{
    if records.len() > 0 {
        let rest = records.drop_last();
        lemma_records_read(rest);
        assert forall|i: int| 0 <= i < rest.len() implies #[trigger] rest[i] == records[i] by {}
        assert(records[records.len() - 1] == records.last());
    }
}

/// Whether a placement is in the order of its shards, each of them once.
pub open spec fn in_shard_order(list: Seq<(u32, u64, Seq<char>)>) -> bool {
    forall|i: int, j: int|
        0 <= i < j < list.len() ==> (#[trigger] list[i]).0 < (#[trigger] list[j]).0
}

/// A shard that is assigned again leaves the others as they were.
proof fn lemma_assigned_holds(
    list: Seq<(u32, u64, Seq<char>)>,
    item: (u32, u64, Seq<char>),
)
    requires
        in_shard_order(list),
    ensures
        in_shard_order(assigned(list, item)),
        forall|held: (u32, u64, Seq<char>)| #[trigger]
            assigned(list, item).contains(held) <==> held == item || (held.0 != item.0
                && list.contains(held)),
    decreases list.len(),
{
    each_shard_is_assigned_once(list, item);
    let after = assigned(list, item);
    if list.len() > 0 {
        let rest = list.drop_last();
        let last = list.last();
        assert(list[list.len() - 1] == last);
        assert(in_shard_order(rest)) by {
            assert forall|i: int, j: int| 0 <= i < j < rest.len() implies (#[trigger] rest[i]).0 < (
            #[trigger] rest[j]).0 by {
                assert(list[i].0 < list[j].0);
            }
        }
        assert forall|held: (u32, u64, Seq<char>)| #[trigger] list.contains(held) <==> held == last
            || rest.contains(held) by {
            if rest.contains(held) {
                let i = rest.index_of(held);
                assert(list[i] == held);
            }
            if list.contains(held) && held != last {
                let i = list.index_of(held);
                assert(rest[i] == held);
            }
        }
        assert forall|held: (u32, u64, Seq<char>)| rest.contains(held) implies held.0 < last.0 by {
            let i = rest.index_of(held);
            assert(list[i].0 < list[list.len() - 1].0);
        }
        if last.0 < item.0 {
            assert forall|held: (u32, u64, Seq<char>)| #[trigger]
                after.contains(held) <==> held == item || (held.0 != item.0 && list.contains(
                    held,
                )) by {
                assert(after[list.len() as int] == item);
                if list.contains(held) {
                    let i = list.index_of(held);
                    assert(after[i] == held);
                    assert(held.0 <= last.0);
                }
                if after.contains(held) && held != item {
                    let i = after.index_of(held);
                    assert(list[i] == held);
                }
            }
        } else if last.0 == item.0 {
            assert forall|held: (u32, u64, Seq<char>)| #[trigger]
                after.contains(held) <==> held == item || (held.0 != item.0 && list.contains(
                    held,
                )) by {
                assert(after[rest.len() as int] == item);
                if rest.contains(held) {
                    let i = rest.index_of(held);
                    assert(after[i] == held);
                }
                if after.contains(held) && held != item {
                    let i = after.index_of(held);
                    assert(rest[i] == held);
                }
            }
        } else {
            lemma_assigned_holds(rest, item);
            let front = assigned(rest, item);
            assert forall|held: (u32, u64, Seq<char>)| #[trigger]
                after.contains(held) <==> held == item || (held.0 != item.0 && list.contains(
                    held,
                )) by {
                assert(after[front.len() as int] == last);
                if front.contains(held) {
                    let i = front.index_of(held);
                    assert(after[i] == held);
                }
                if after.contains(held) && held != last {
                    let i = after.index_of(held);
                    assert(front[i] == held);
                }
            }
        }
    } else {
        assert(after =~= seq![item]);
        assert(after[0] == item);
    }
}

/// Whether an entry of a list says that a peer holds a shard.
pub open spec fn names_holder(entry: JsonValue, shard: u32, peer: u64) -> bool {
    names_shard(entry, shard) && json::get_member(entry, "peer_id"@) == Some(
        JsonValue::Unsigned(peer),
    )
}

/// Whether a list of remote shards says last that a peer holds a shard.
pub open spec fn named_last(shards: Seq<JsonValue>, shard: u32, peer: u64) -> bool {
    exists|j: int|
        0 <= j < shards.len() && names_holder(#[trigger] shards[j], shard, peer) && forall|
            k: int,
            other: u64,
        |
            j < k < shards.len() ==> !#[trigger] names_holder(shards[k], shard, other)
}

proof fn lemma_local_placement(shards: Seq<JsonValue>, peer: u64, uri: Seq<char>)
    ensures
        in_shard_order(local_placement(shards, peer, uri)),
        forall|held: (u32, u64, Seq<char>)| #[trigger]
            local_placement(shards, peer, uri).contains(held) <==> held.1 == peer && held.2 == uri
                && exists|j: int|
                0 <= j < shards.len() && names_shard(#[trigger] shards[j], held.0),
    decreases shards.len(),
{
    if shards.len() > 0 {
        let rest = shards.drop_last();
        let last = shards.last();
        let front = local_placement(rest, peer, uri);
        let all = local_placement(shards, peer, uri);
        lemma_local_placement(rest, peer, uri);
        assert(shards[shards.len() - 1] == last);
        match number_member(last, "shard_id"@) {
            Some(id) => lemma_assigned_holds(front, (id as u32, peer, uri)),
            None => {},
        }
        assert forall|held: (u32, u64, Seq<char>)| #[trigger] all.contains(held) <==> held.1 == peer
            && held.2 == uri && exists|j: int|
            0 <= j < shards.len() && names_shard(#[trigger] shards[j], held.0) by {
            assert(front.contains(held) <==> held.1 == peer && held.2 == uri && exists|j: int|
                0 <= j < rest.len() && names_shard(#[trigger] rest[j], held.0));
            if exists|j: int| 0 <= j < rest.len() && names_shard(#[trigger] rest[j], held.0) {
                let j = choose|j: int| 0 <= j < rest.len() && names_shard(#[trigger] rest[j], held.0);
                assert(names_shard(shards[j], held.0));
            }
            if exists|j: int| 0 <= j < shards.len() && names_shard(#[trigger] shards[j], held.0) {
                let j = choose|j: int|
                    0 <= j < shards.len() && names_shard(#[trigger] shards[j], held.0);
                if j < rest.len() {
                    assert(names_shard(rest[j], held.0));
                }
            }
        }
    }
}

proof fn lemma_remote_placement(
    local: Seq<(u32, u64, Seq<char>)>,
    shards: Seq<JsonValue>,
    peers: JsonValue,
)
    requires
        in_shard_order(local),
    ensures
        in_shard_order(remote_placement(local, shards, peers)),
        forall|held: (u32, u64, Seq<char>)| #[trigger]
            remote_placement(local, shards, peers).contains(held) <==> (named_last(
                shards,
                held.0,
                held.1,
            ) && held.2 == remote_uri(peers, held.1)) || (local.contains(held) && forall|
                j: int,
                peer: u64,
            |
                0 <= j < shards.len() ==> !#[trigger] names_holder(shards[j], held.0, peer)),
    decreases shards.len(),
{
    if shards.len() > 0 {
        let rest = shards.drop_last();
        let last = shards.last();
        let n = rest.len() as int;
        let front = remote_placement(local, rest, peers);
        let all = remote_placement(local, shards, peers);
        lemma_remote_placement(local, rest, peers);
        assert(shards[n] == last);
        assert forall|j: int| 0 <= j < n implies #[trigger] shards[j] == rest[j] by {}
        let shard = number_member(last, "shard_id"@);
        let peer = number_member(last, "peer_id"@);
        let told = shard is Some && peer is Some;
        let item = (shard->0 as u32, peer->0, remote_uri(peers, peer->0));
        if told {
            lemma_assigned_holds(front, item);
        }
        assert forall|held: (u32, u64, Seq<char>)| #[trigger] all.contains(held) <==> (named_last(
            shards,
            held.0,
            held.1,
        ) && held.2 == remote_uri(peers, held.1)) || (local.contains(held) && forall|
            j: int,
            peer: u64,
        |
            0 <= j < shards.len() ==> !#[trigger] names_holder(shards[j], held.0, peer)) by {
            let same = told && held.0 == item.0;
            assert(front.contains(held) <==> (named_last(rest, held.0, held.1) && held.2
                == remote_uri(peers, held.1)) || (local.contains(held) && forall|
                j: int,
                peer: u64,
            |
                0 <= j < rest.len() ==> !#[trigger] names_holder(rest[j], held.0, peer)));
            if same {
                assert(names_holder(shards[n], held.0, item.1));
                if named_last(shards, held.0, held.1) {
                    let j = choose|j: int|
                        0 <= j < shards.len() && names_holder(#[trigger] shards[j], held.0, held.1)
                            && forall|k: int, other: u64|
                            j < k < shards.len() ==> !#[trigger] names_holder(
                                shards[k],
                                held.0,
                                other,
                            );
                    assert(j == n);
                }
                if held.1 == item.1 {
                    assert(names_holder(shards[n], held.0, held.1));
                    assert(named_last(shards, held.0, held.1));
                }
            } else {
                assert forall|p: u64| !#[trigger] names_holder(shards[n], held.0, p) by {}
                if named_last(rest, held.0, held.1) {
                    let j = choose|j: int|
                        0 <= j < rest.len() && names_holder(#[trigger] rest[j], held.0, held.1)
                            && forall|k: int, other: u64|
                            j < k < rest.len() ==> !#[trigger] names_holder(
                                rest[k],
                                held.0,
                                other,
                            );
                    assert(names_holder(shards[j], held.0, held.1));
                    assert forall|k: int, other: u64| j < k < shards.len() implies !#[trigger]
                        names_holder(shards[k], held.0, other) by {
                        if k < n {
                            assert(!names_holder(rest[k], held.0, other));
                        }
                    }
                    assert(named_last(shards, held.0, held.1));
                }
                if named_last(shards, held.0, held.1) {
                    let j = choose|j: int|
                        0 <= j < shards.len() && names_holder(#[trigger] shards[j], held.0, held.1)
                            && forall|k: int, other: u64|
                            j < k < shards.len() ==> !#[trigger] names_holder(
                                shards[k],
                                held.0,
                                other,
                            );
                    assert(j < n);
                    assert(names_holder(rest[j], held.0, held.1));
                    assert forall|k: int, other: u64| j < k < rest.len() implies !#[trigger]
                        names_holder(rest[k], held.0, other) by {
                        assert(!names_holder(shards[k], held.0, other));
                    }
                    assert(named_last(rest, held.0, held.1));
                }
                if forall|j: int, peer: u64|
                    0 <= j < rest.len() ==> !#[trigger] names_holder(rest[j], held.0, peer) {
                    assert forall|j: int, peer: u64| 0 <= j < shards.len() implies !#[trigger]
                        names_holder(shards[j], held.0, peer) by {
                        if j < n {
                            assert(!names_holder(rest[j], held.0, peer));
                        }
                    }
                }
                if forall|j: int, peer: u64|
                    0 <= j < shards.len() ==> !#[trigger] names_holder(shards[j], held.0, peer) {
                    assert forall|j: int, peer: u64| 0 <= j < rest.len() implies !#[trigger]
                        names_holder(rest[j], held.0, peer) by {
                        assert(!names_holder(shards[j], held.0, peer));
                    }
                }
            }
        }
    } else {
        assert forall|held: (u32, u64, Seq<char>)| #[trigger] local.contains(held) implies true by {}
    }
}

/// The list under a member of the cluster's answer, empty where there is none.
pub open spec fn stated_list(result: JsonValue, key: Seq<char>) -> Seq<JsonValue> {
    match json::get_member(result, key) {
        Some(JsonValue::List(items)) => items,
        _ => Seq::empty(),
    }
}

/// An install plan assigns a shard to a peer exactly where the cluster says that the peer holds it:
/// another peer where the remote shards name one, and the last where they name several, and
/// otherwise the asked one where its local shards name the shard. Each stands with the address of the
/// peer, or what stands for an unknown one, and the shards are in order, each once.
pub proof fn a_shard_is_assigned_where_the_cluster_has_it(
    result: JsonValue,
    peers: JsonValue,
    queried: u64,
    shard: u32,
    peer: u64,
    uri: Seq<char>,
)
    ensures
        in_shard_order(placement_in(result, peers, queried)),
        placement_in(result, peers, queried).contains((shard, peer, uri)) <==> {
            ||| {
                &&& named_last(stated_list(result, "remote_shards"@), shard, peer)
                &&& uri == (match uri_of(peers, peer) {
                    Some(known) => known,
                    None => "<unknown uri for peer "@ + text::decimal_text(peer as nat) + ">"@,
                })
            }
            ||| {
                &&& forall|j: int, other: u64|
                    0 <= j < stated_list(result, "remote_shards"@).len() ==> !#[trigger]
                        names_holder(stated_list(result, "remote_shards"@)[j], shard, other)
                &&& exists|j: int|
                    0 <= j < stated_list(result, "local_shards"@).len() && names_shard(
                        #[trigger] stated_list(result, "local_shards"@)[j],
                        shard,
                    )
                &&& peer == queried
                &&& uri == (match uri_of(peers, queried) {
                    Some(known) => known,
                    None => "<this peer "@ + text::decimal_text(queried as nat) + ">"@,
                })
            }
        },
{
    let own = match uri_of(peers, queried) {
        Some(uri) => uri,
        None => "<this peer "@ + text::decimal_text(queried as nat) + ">"@,
    };
    let local = stated_list(result, "local_shards"@);
    let remote = stated_list(result, "remote_shards"@);
    lemma_local_placement(local, queried, own);
    let first = local_placement(local, queried, own);
    lemma_remote_placement(first, remote, peers);
    let held = (shard, peer, uri);
    assert(placement_in(result, peers, queried) == remote_placement(first, remote, peers));
    assert(remote_placement(first, remote, peers).contains(held) <==> (named_last(
        remote,
        shard,
        peer,
    ) && uri == remote_uri(peers, peer)) || (first.contains(held) && forall|j: int, other: u64|
        0 <= j < remote.len() ==> !#[trigger] names_holder(remote[j], shard, other)));
    assert(first.contains(held) <==> peer == queried && uri == own && exists|j: int|
        0 <= j < local.len() && names_shard(#[trigger] local[j], shard));
}

/// The peers that the cluster's answer lists, by their names; none where it lists none.
pub open spec fn stated_peers(peers: JsonValue) -> Seq<(Seq<char>, JsonValue)> {
    match json::get_member(peers, "result"@) {
        Some(result) => match json::get_member(result, "peers"@) {
            Some(JsonValue::Object(members)) => members,
            _ => Seq::empty(),
        },
        None => Seq::empty(),
    }
}

/// The address of a peer is that of a member of the cluster's answer which is named by the peer's id,
/// and a peer has one wherever such a member states it.
pub proof fn a_peer_is_reached_under_its_own_address(peers: JsonValue, peer: u64)
    ensures
        uri_of(peers, peer) is Some <==> exists|i: int|
            0 <= i < stated_peers(peers).len() && text::number_in(
                (#[trigger] stated_peers(peers)[i]).0,
                u64::MAX as nat,
            ) == Some(peer as nat) && (json::get_member(
                stated_peers(peers)[i].1,
                "uri"@,
            ) matches Some(JsonValue::Text(_))),
        uri_of(peers, peer) matches Some(uri) ==> exists|i: int|
            0 <= i < stated_peers(peers).len() && text::number_in(
                (#[trigger] stated_peers(peers)[i]).0,
                u64::MAX as nat,
            ) == Some(peer as nat) && json::get_member(stated_peers(peers)[i].1, "uri"@) == Some(
                JsonValue::Text(uri),
            ),
{
    lemma_uri_among(stated_peers(peers), peer);
}

proof fn lemma_uri_among(members: Seq<(Seq<char>, JsonValue)>, peer: u64)
    ensures
        uri_among(members, peer) is Some <==> exists|i: int|
            0 <= i < members.len() && text::number_in(
                (#[trigger] members[i]).0,
                u64::MAX as nat,
            ) == Some(peer as nat) && (json::get_member(members[i].1, "uri"@) matches Some(
                JsonValue::Text(_),
            )),
        uri_among(members, peer) matches Some(uri) ==> exists|i: int|
            0 <= i < members.len() && text::number_in(
                (#[trigger] members[i]).0,
                u64::MAX as nat,
            ) == Some(peer as nat) && json::get_member(members[i].1, "uri"@) == Some(
                JsonValue::Text(uri),
            ),
    decreases members.len(),
{
    if members.len() > 0 {
        let rest = members.drop_last();
        let last = members.last();
        lemma_uri_among(rest, peer);
        assert(members[members.len() - 1] == last);
        if exists|i: int|
            0 <= i < rest.len() && text::number_in((#[trigger] rest[i]).0, u64::MAX as nat) == Some(
                peer as nat,
            ) && (json::get_member(rest[i].1, "uri"@) matches Some(JsonValue::Text(_))) {
            let i = choose|i: int|
                0 <= i < rest.len() && text::number_in((#[trigger] rest[i]).0, u64::MAX as nat)
                    == Some(peer as nat) && (json::get_member(rest[i].1, "uri"@) matches Some(
                    JsonValue::Text(_),
                ));
            assert(members[i] == rest[i]);
        }
        if exists|i: int|
            0 <= i < members.len() && text::number_in(
                (#[trigger] members[i]).0,
                u64::MAX as nat,
            ) == Some(peer as nat) && (json::get_member(members[i].1, "uri"@) matches Some(
                JsonValue::Text(_),
            )) {
            let i = choose|i: int|
                0 <= i < members.len() && text::number_in(
                    (#[trigger] members[i]).0,
                    u64::MAX as nat,
                ) == Some(peer as nat) && (json::get_member(members[i].1, "uri"@) matches Some(
                    JsonValue::Text(_),
                ));
            if i < rest.len() {
                assert(rest[i] == members[i]);
            }
        }
        if uri_among(rest, peer) is Some {
            let uri = uri_among(rest, peer)->0;
            let i = choose|i: int|
                0 <= i < rest.len() && text::number_in((#[trigger] rest[i]).0, u64::MAX as nat)
                    == Some(peer as nat) && json::get_member(rest[i].1, "uri"@) == Some(
                    JsonValue::Text(uri),
                );
            assert(members[i] == rest[i]);
        }
    }
}

/// An address is counted exactly where some shard is read from it.
pub proof fn the_addresses_counted_are_those_of_owners(
    holdings: Seq<(u32, u64, Seq<char>)>,
    url: Seq<char>,
)
    ensures
        owner_urls(holdings).contains(url) <==> exists|shard: u32| #[trigger]
            owner_url(holdings, shard) == Some(url),
    decreases holdings.len(),
{
    if holdings.len() == 0 {
        assert(owner_urls(holdings).len() == 0);
    } else {
        let rest = holdings.drop_last();
        let last = holdings.last();
        the_addresses_counted_are_those_of_owners(rest, url);
        assert forall|shard: u32| #[trigger]
            owner_url(holdings, shard) == (match owner_url(rest, shard) {
                Some(url) => Some(url),
                None => if last.0 == shard {
                    Some(last.2)
                } else {
                    None
                },
            }) by {
            lemma_owner_behind(rest, last, shard);
            assert(rest.push(last) =~= holdings);
        }
        if owner_url(rest, last.0) is None {
            let before = owner_urls(rest);
            let urls = before.push(last.2);
            assert(urls[urls.len() - 1] == last.2);
            if urls.contains(url) {
                if url == last.2 {
                    assert(owner_url(holdings, last.0) == Some(url));
                } else {
                    let i = choose|i: int| 0 <= i < urls.len() && urls[i] == url;
                    assert(before[i] == url);
                    let shard = choose|shard: u32| #[trigger] owner_url(rest, shard) == Some(url);
                    assert(owner_url(holdings, shard) == Some(url));
                }
            }
            if exists|shard: u32| #[trigger] owner_url(holdings, shard) == Some(url) {
                let shard = choose|shard: u32| #[trigger] owner_url(holdings, shard) == Some(url);
                if owner_url(rest, shard) is Some {
                    let i = choose|i: int| 0 <= i < before.len() && before[i] == url;
                    assert(urls[i] == url);
                }
            }
        } else {
            if exists|shard: u32| #[trigger] owner_url(rest, shard) == Some(url) {
                let shard = choose|shard: u32| #[trigger] owner_url(rest, shard) == Some(url);
                assert(owner_url(holdings, shard) == Some(url));
            }
            if exists|shard: u32| #[trigger] owner_url(holdings, shard) == Some(url) {
                let shard = choose|shard: u32| #[trigger] owner_url(holdings, shard) == Some(url);
                assert(owner_url(rest, shard) == Some(url));
            }
        }
    }
}

proof fn lemma_owner_behind(
    holdings: Seq<(u32, u64, Seq<char>)>,
    last: (u32, u64, Seq<char>),
    shard: u32,
)
    ensures
        owner_url(holdings.push(last), shard) == (match owner_url(holdings, shard) {
            Some(url) => Some(url),
            None => if last.0 == shard {
                Some(last.2)
            } else {
                None
            },
        }),
    decreases holdings.len(),
{
    let longer = holdings.push(last);
    if holdings.len() == 0 {
        assert(longer.skip(1) =~= holdings);
    } else {
        assert(longer[0] == holdings[0]);
        assert(longer.skip(1) =~= holdings.skip(1).push(last));
        lemma_owner_behind(holdings.skip(1), last, shard);
    }
}

/// A cluster's replies give an install plan exactly where they name the queried peer and place a
/// shard.
pub proof fn an_install_plan_needs_a_peer_and_a_shard(
    cluster: JsonValue,
    peers: JsonValue,
    collection: Seq<char>,
)
    ensures
        plan_fault(cluster, peers, collection) is None <==> (json::get_member(cluster, "result"@)
            matches Some(result) && number_member(result, "peer_id"@) matches Some(queried)
            && placement_in(result, peers, queried).len() > 0),
{
}

} // verus!
