//! The key generation of one participant, as a state machine: commitments are
//! gathered first, then shares, and from them the joint key.
use crate::committee::{AuthorityIndex, Committee};
use crate::curve::Point;
use crate::dkg;
use crate::dkg::{aggregate_commitments, get_dkg_rng_for_participant};
use crate::elgamal;
use crate::elgamal::{
    pk_from_commitments, shamir_split_with_commitments, verify_share_with_commitments, Share,
};
use crate::field;
use crate::field::Scalar;
use crate::keymap;
use crate::keymap::KeyMap;
use crate::modular;
use vstd::prelude::*;

verus! {

/// How far a participant has come.
pub enum DkgState {
    Idle,
    AwaitingCommitments(KeyMap<AuthorityIndex, Vec<Point>>),
    AwaitingShares(KeyMap<AuthorityIndex, Vec<Point>>, KeyMap<AuthorityIndex, Share>),
    Complete,
    AwaitingPartialDecryptions(KeyMap<AuthorityIndex, Vec<u8>>),
}

/// How far a participant has come, as mathematical values.
pub enum DkgPhase {
    Idle,
    Commitments(Map<u64, Seq<Point>>),
    Shares(Map<u64, Seq<Point>>, Map<u64, Share>),
    Complete,
    Tally(Map<u64, Seq<u8>>),
}

/// A participant's state as mathematical values. The keys are the logarithm of
/// the joint public key and the share of its secret.
pub struct DkgView {
    pub phase: DkgPhase,
    pub my_index: u64,
    pub t: nat,
    pub n: nat,
    pub g: Point,
    pub shares_to_send: Seq<Share>,
    pub commits: Seq<Point>,
    pub keys: Option<(int, int)>,
    pub pending: Seq<(u64, Share)>,
    pub peers: Seq<u64>,
    pub seed: u64,
}

/// The contents of lists of points.
pub open spec fn point_lists(m: Map<u64, Vec<Point>>) -> Map<u64, Seq<Point>> {
    m.map_values(|v: Vec<Point>| v@)
}

/// The contents of lists of bytes.
pub open spec fn byte_lists(m: Map<u64, Vec<u8>>) -> Map<u64, Seq<u8>> {
    m.map_values(|v: Vec<u8>| v@)
}

/// The constant commitments of the participants, as logarithms.
pub open spec fn key_term(commits: Map<u64, Seq<Point>>) -> spec_fn(int) -> int {
    |i: int| commits[i as u64][0].log()
}

/// The shares from the participants.
pub open spec fn share_term(shares: Map<u64, Share>) -> spec_fn(int) -> int {
    |i: int| shares[i as u64].value@
}

/// The keys that commitments and shares of all participants make.
pub open spec fn joint_keys(
    commits: Map<u64, Seq<Point>>,
    shares: Map<u64, Share>,
    n: nat,
) -> (int, int) {
    (
        modular::sum(n, key_term(commits)) % field::scalar_order(),
        modular::sum(n, share_term(shares)) % field::scalar_order(),
    )
}

/// Every participant has committed to at least `t` coefficients.
pub open spec fn commitments_complete(commits: Map<u64, Seq<Point>>, t: nat, n: nat) -> bool {
    forall|i: u64|
        i < n ==> #[trigger] commits.dom().contains(i) && commits[i].len() >= t
}

/// A share is for this participant, and its sender's commitments confirm it.
pub open spec fn acceptable(
    v: DkgView,
    commits: Map<u64, Seq<Point>>,
    sender: u64,
    share: Share,
) -> bool {
    &&& share.index == v.my_index + 1
    &&& commits.dom().contains(sender)
    &&& elgamal::share_matches(share, commits[sender], v.g)
}

/// What a share does: it waits while commitments are missing, is dropped where
/// it is not acceptable, and the last one completes the keys.
pub open spec fn share_step(v: DkgView, sender: u64, share: Share) -> DkgView {
    match v.phase {
        DkgPhase::Idle => DkgView { pending: keymap::upsert(v.pending, sender, share), ..v },
        DkgPhase::Commitments(_) => DkgView {
            pending: keymap::upsert(v.pending, sender, share),
            ..v
        },
        DkgPhase::Shares(c, s) => if acceptable(v, c, sender, share) {
            let s2 = s.insert(sender, share);
            if s.dom().contains(sender) || s2.len() != v.n {
                DkgView { phase: DkgPhase::Shares(c, s2), ..v }
            } else {
                DkgView { phase: DkgPhase::Complete, keys: Some(joint_keys(c, s2, v.n)), ..v }
            }
        } else {
            v
        },
        _ => v,
    }
}

/// A share completes the keys only where the commitments are complete.
pub open spec fn share_safe(v: DkgView, sender: u64, share: Share) -> bool {
    v.phase matches DkgPhase::Shares(c, s) ==> (acceptable(v, c, sender, share) && !s.dom().contains(
        sender,
    ) && s.insert(sender, share).len() == v.n ==> commitments_complete(c, v.t, v.n))
}

/// The first `k` shares of a list, one after the other.
pub open spec fn replay(v: DkgView, list: Seq<(u64, Share)>, k: nat) -> DkgView
    decreases k,
{
    if k == 0 {
        v
    } else {
        let w = replay(v, list, (k - 1) as nat);
        share_step(w, list[k - 1].0, list[k - 1].1)
    }
}

/// Each share of a list completes the keys only where it may.
pub open spec fn replay_safe(v: DkgView, list: Seq<(u64, Share)>) -> bool {
    forall|k: int|
        0 <= k < list.len() ==> share_safe(
            #[trigger] replay(v, list, k as nat),
            list[k].0,
            list[k].1,
        )
}

/// The commitments that have been received, where they are awaited.
pub open spec fn received_commitments(v: DkgView) -> Option<Map<u64, Seq<Point>>> {
    match v.phase {
        DkgPhase::Idle => Some(Map::empty()),
        DkgPhase::Commitments(c) => Some(c),
        _ => None,
    }
}

/// A commitment is the last one that was missing.
pub open spec fn commitment_completes(v: DkgView, sender: u64, commits: Seq<Point>) -> bool {
    received_commitments(v) matches Some(c) && !c.dom().contains(sender) && c.insert(
        sender,
        commits,
    ).len() == v.n
}

/// The state in which shares are awaited, once all commitments are there.
pub open spec fn awaiting_shares(v: DkgView, sender: u64, commits: Seq<Point>) -> DkgView {
    DkgView {
        phase: DkgPhase::Shares(
            received_commitments(v).unwrap().insert(sender, commits),
            Map::empty(),
        ),
        ..v
    }
}

/// The state after the own share, with the waiting shares taken out.
pub open spec fn own_share_taken(v: DkgView, sender: u64, commits: Seq<Point>) -> DkgView {
    DkgView {
        pending: Seq::empty(),
        ..share_step(
            awaiting_shares(v, sender, commits),
            v.my_index,
            v.shares_to_send[v.my_index as int],
        )
    }
}

/// What a commitment does: it is kept, and the last one turns to the shares,
/// first the own one and then those that were waiting.
pub open spec fn commitment_step(v: DkgView, sender: u64, commits: Seq<Point>) -> DkgView {
    match received_commitments(v) {
        Some(c) => if commitment_completes(v, sender, commits) {
            replay(own_share_taken(v, sender, commits), v.pending, v.pending.len())
        } else {
            DkgView { phase: DkgPhase::Commitments(c.insert(sender, commits)), ..v }
        },
        None => v,
    }
}

/// A commitment leads to no share that completes the keys where it may not,
/// and the own share exists where it is needed.
pub open spec fn commitment_safe(v: DkgView, sender: u64, commits: Seq<Point>) -> bool {
    commitment_completes(v, sender, commits) ==> {
        &&& v.my_index < v.shares_to_send.len()
        &&& share_safe(
            awaiting_shares(v, sender, commits),
            v.my_index,
            v.shares_to_send[v.my_index as int],
        )
        &&& replay_safe(own_share_taken(v, sender, commits), v.pending)
    }
}

/// A share goes to a connected peer other than its dealer.
pub open spec fn is_sent(share: Share, my_index: u64, peers: Seq<u64>) -> bool {
    share.index - 1 != my_index && peers.contains((share.index - 1) as u64)
}

/// The shares that are sent, with their receivers, among the first `k`.
pub open spec fn share_sends(
    shares: Seq<Share>,
    my_index: u64,
    peers: Seq<u64>,
    k: int,
) -> Seq<(u64, Share)>
    decreases k,
{
    if k <= 0 {
        Seq::empty()
    } else {
        let rest = share_sends(shares, my_index, peers, k - 1);
        if is_sent(shares[k - 1], my_index, peers) {
            rest.push(((shares[k - 1].index - 1) as u64, shares[k - 1]))
        } else {
            rest
        }
    }
}

/// One participant of the key generation.
pub struct DkgManager {
    state: DkgState,
    my_index: AuthorityIndex,
    g: Point,
    t: usize,
    n: usize,
    my_shares_to_send: Vec<Share>,
    my_commits: Vec<Point>,
    keys: Option<(Point, Scalar)>,
    pending_shares: KeyMap<AuthorityIndex, Share>,
    peers: Vec<AuthorityIndex>,
    global_seed: u64,
}

impl View for DkgManager {
    type V = DkgView;

    closed spec fn view(&self) -> DkgView {
        DkgView {
            phase: match self.state {
                DkgState::Idle => DkgPhase::Idle,
                DkgState::AwaitingCommitments(c) => DkgPhase::Commitments(point_lists(c@)),
                DkgState::AwaitingShares(c, s) => DkgPhase::Shares(point_lists(c@), s@),
                DkgState::Complete => DkgPhase::Complete,
                DkgState::AwaitingPartialDecryptions(p) => DkgPhase::Tally(byte_lists(p@)),
            },
            my_index: self.my_index,
            t: self.t as nat,
            n: self.n as nat,
            g: self.g,
            shares_to_send: self.my_shares_to_send@,
            commits: self.my_commits@,
            keys: match self.keys {
                Some(k) => Some((k.0.log(), k.1@)),
                None => None,
            },
            pending: self.pending_shares.entries@,
            peers: self.peers@,
            seed: self.global_seed,
        }
    }
}

/// What holds of a participant at all times: the threshold is that of the
/// committee, the shares it holds are acceptable, those it deals are for the
/// participants in turn, and the keys are there once it is complete.
pub open spec fn dkg_valid(v: DkgView) -> bool {
    &&& 0 < v.n
    &&& v.t == v.n * 2 / 3 + 1
    &&& v.my_index < v.n
    &&& v.g.log() == 1
    &&& forall|k: int|
        0 <= k < v.shares_to_send.len() ==> (#[trigger] v.shares_to_send[k]).index == k + 1
    &&& v.phase matches DkgPhase::Shares(c, s) ==> {
        &&& c.dom().finite()
        &&& c.len() == v.n
        &&& s.dom().finite()
        &&& s.len() < v.n
        &&& forall|k: u64| #[trigger] s.dom().contains(k) ==> acceptable(v, c, k, s[k])
    }
    &&& v.phase is Complete || v.phase is Tally ==> v.keys is Some
    &&& v.phase matches DkgPhase::Commitments(c) ==> c.dom().finite() && c.len() < v.n
}

/// A participant that has not started and has received nothing.
pub open spec fn is_new(v: DkgView, my_index: u64, n: nat, seed: u64) -> bool {
    &&& dkg_valid(v)
    &&& v.phase is Idle
    &&& v.my_index == my_index
    &&& v.n == n
    &&& v.t == n * 2 / 3 + 1
    &&& v.seed == seed
    &&& v.pending.len() == 0
    &&& v.commits.len() == 0
    &&& v.shares_to_send.len() == 0
    &&& v.keys is None
}

/// A set of `n` numbers below `n` holds them all.
proof fn lemma_all_below(s: Set<u64>, n: nat)
    requires
        s.finite(),
        s.len() >= n,
        n <= u64::MAX,
        forall|k: u64| s.contains(k) ==> k < n,
    ensures
        forall|i: u64| i < n ==> s.contains(i),
        s.len() == n,
    decreases n,
{
    if n == 0 {
        assert(s =~= Set::empty());
    } else {
        let m = (n - 1) as u64;
        let r = s.remove(m);
        assert forall|k: u64| r.contains(k) implies k < n - 1 by {
            assert(s.contains(k));
        }
        lemma_all_below(r, (n - 1) as nat);
        assert(s.contains(m));
    }
}

/// A set of `n` numbers that holds all below `n` holds no other.
proof fn lemma_only_below(s: Set<u64>, n: nat)
    requires
        s.finite(),
        s.len() == n,
        n <= u64::MAX,
        forall|i: u64| i < n ==> s.contains(i),
    ensures
        forall|k: u64| s.contains(k) ==> k < n,
    decreases n,
{
    if n == 0 {
        assert(s =~= Set::empty());
    } else {
        let m = (n - 1) as u64;
        let r = s.remove(m);
        assert forall|i: u64| i < n - 1 implies r.contains(i) by {
            assert(s.contains(i));
        }
        lemma_only_below(r, (n - 1) as nat);
        assert forall|k: u64| s.contains(k) implies k < n by {
            if k != m {
                assert(r.contains(k));
            }
        }
    }
}

fn copy_points(v: &Vec<Point>) -> (r: Vec<Point>)
    ensures
        r@ == v@,
{
    let mut out: Vec<Point> = Vec::new();
    let mut i: usize = 0;
    while i < v.len()
        invariant
            i <= v@.len(),
            out@ == v@.take(i as int),
        decreases v@.len() - i,
    {
        out.push(v[i]);
        i = i + 1;
        assert(v@.take(i as int) =~= v@.take(i - 1).push(v@[i - 1]));
    }
    assert(v@.take(i as int) =~= v@);
    out
}

fn contains_peer(peers: &Vec<u64>, p: u64) -> (b: bool)
    ensures
        b == peers@.contains(p),
{
    let mut i: usize = 0;
    while i < peers.len()
        invariant
            i <= peers@.len(),
            forall|j: int| 0 <= j < i ==> peers@[j] != p,
        decreases peers@.len() - i,
    {
        if peers[i] == p {
            assert(peers@[i as int] == p);
            return true;
        }
        i = i + 1;
    }
    false
}

impl DkgManager {
    spec fn maps_wf(&self) -> bool {
        &&& self.pending_shares.wf()
        &&& match self.state {
            DkgState::AwaitingCommitments(c) => c.wf(),
            DkgState::AwaitingShares(c, s) => c.wf() && s.wf(),
            DkgState::AwaitingPartialDecryptions(p) => p.wf(),
            _ => true,
        }
    }

    /// What holds of a participant at all times.
    pub closed spec fn wf(&self) -> bool {
        self.maps_wf() && dkg_valid(self@)
    }

    /// A participant that has not started.
    pub fn new(my_index: AuthorityIndex, committee: &Committee, global_seed: u64) -> (r: Self)
        requires
            my_index < committee.stakes().len(),
        ensures
            r.wf(),
            is_new(r@, my_index, committee.stakes().len(), global_seed),
            r@.peers == Seq::<u64>::empty(),
    {
        let n: usize = committee.len();
        DkgManager {
            state: DkgState::Idle,
            my_index,
            g: Point::generator(),
            t: n * 2 / 3 + 1,
            n,
            my_shares_to_send: Vec::new(),
            my_commits: Vec::new(),
            keys: None,
            pending_shares: KeyMap::new(),
            peers: Vec::new(),
            global_seed,
        }
    }

    /// How many peers are connected.
    pub fn get_connected_peer_count(&self) -> (r: usize)
        ensures
            r == self@.peers.len(),
    {
        self.peers.len()
    }

    /// A peer connects. Tells whether the own commitments are to be sent to it:
    /// they are where they exist already.
    pub fn register_peer(&mut self, peer_id: AuthorityIndex) -> (resend: bool)
        requires
            old(self).wf(),
        ensures
            final(self).wf(),
            resend == (peer_id != old(self)@.my_index && old(self)@.commits.len() > 0),
            final(self)@ == (DkgView {
                peers: if peer_id == old(self)@.my_index || old(self)@.peers.contains(peer_id) {
                    old(self)@.peers
                } else {
                    old(self)@.peers.push(peer_id)
                },
                ..old(self)@
            }),
    {
        if peer_id == self.my_index {
            return false;
        }
        if !contains_peer(&self.peers, peer_id) {
            self.peers.push(peer_id);
        }
        self.my_commits.len() > 0
    }

    /// A peer disconnects.
    pub fn unregister_peer(&mut self, peer_id: AuthorityIndex)
        requires
            old(self).wf(),
        ensures
            final(self).wf(),
            final(self)@ == (DkgView {
                peers: old(self)@.peers.filter(|p: u64| p != peer_id),
                ..old(self)@
            }),
    {
        let mut kept: Vec<u64> = Vec::new();
        let ghost keep = |p: u64| p != peer_id;
        let ghost before = self@;
        let mut i: usize = 0;
        assert(before.peers.take(0).filter(keep) =~= Seq::empty());
        while i < self.peers.len()
            invariant
                i <= self.peers@.len(),
                keep == (|p: u64| p != peer_id),
                self@ == before,
                self.wf(),
                before.peers == self.peers@,
                kept@ == before.peers.take(i as int).filter(keep),
            decreases self.peers@.len() - i,
        {
            let p: u64 = self.peers[i];
            proof {
                let s = before.peers.take(i + 1);
                assert(s.drop_last() =~= before.peers.take(i as int));
                assert(s.last() == p);
                reveal(Seq::filter);
            }
            if p != peer_id {
                kept.push(p);
            }
            i = i + 1;
        }
        assert(before.peers.take(i as int) =~= before.peers);
        self.peers = kept;
    }
}

/// The joint keys from everybody's commitments and shares.
fn aggregate_keys(
    commits: &KeyMap<AuthorityIndex, Vec<Point>>,
    shares: &KeyMap<AuthorityIndex, Share>,
    t: usize,
    n: usize,
) -> (r: (Point, Scalar))
    requires
        commits.wf(),
        shares.wf(),
        0 < t,
        n <= u64::MAX,
        commitments_complete(point_lists(commits@), t as nat, n as nat),
        forall|i: u64| i < n ==> #[trigger] shares@.dom().contains(i),
    ensures
        (r.0.log(), r.1@) == joint_keys(point_lists(commits@), shares@, n as nat),
{
    let ghost o = field::scalar_order();
    let ghost c = point_lists(commits@);
    let ghost f = share_term(shares@);
    let mut acc = Scalar::zero();
    let mut all: Vec<Vec<Point>> = Vec::new();
    let mut i: u64 = 0;
    while i < n as u64
        invariant
            i <= n <= u64::MAX,
            commits.wf(),
            shares.wf(),
            o == field::scalar_order(),
            c == point_lists(commits@),
            f == share_term(shares@),
            commitments_complete(c, t as nat, n as nat),
            forall|i: u64| i < n ==> #[trigger] shares@.dom().contains(i),
            all@.len() == i,
            forall|j: int| 0 <= j < i ==> (#[trigger] all@[j])@ == c[j as u64],
            modular::eqm(acc@, modular::sum(i as nat, f), o),
        decreases n - i,
    {
        assert(c.dom().contains(i));
        assert(shares@.dom().contains(i));
        match commits.get(&i) {
            Some(list) => {
                all.push(copy_points(list));
            },
            None => {},
        }
        match shares.get(&i) {
            Some(share) => {
                proof {
                    let v = share.value@;
                    modular::lemma_eqm_add(acc@, modular::sum(i as nat, f), v, f(i as int), o);
                    modular::lemma_eqm_mod(acc@ + v, o);
                    assert(modular::sum((i + 1) as nat, f) == modular::sum(i as nat, f) + f(i as int));
                }
                acc = acc.plus(&share.value);
            },
            None => {},
        }
        i = i + 1;
    }
    assert forall|j: int| 0 <= j < all@.len() implies (#[trigger] all@[j])@.len() >= t by {
        assert(c.dom().contains(j as u64));
    }
    let master = aggregate_commitments(all.as_slice(), t);
    let pk = pk_from_commitments(master.as_slice());
    proof {
        let h = dkg::commitment_log(all@, 0);
        let k = key_term(c);
        assert forall|j: int| 0 <= j < n implies #[trigger] h(j) == k(j) by {
            assert(all@[j]@ == c[j as u64]);
        }
        modular::lemma_sum_ext(n as nat, h, k);
        field::lemma_scalar_range(acc);
        modular::lemma_small(acc@, o);
        assert(master@[0].log() == modular::sum(n as nat, h) % o);
    }
    (pk, acc)
}

impl DkgManager {
    /// A share arrives.
    pub fn handle_share(&mut self, sender_auth: AuthorityIndex, share: Share)
        requires
            old(self).wf(),
            share_safe(old(self)@, sender_auth, share),
        ensures
            final(self).wf(),
            final(self)@ == share_step(old(self)@, sender_auth, share),
    {
        let ghost before = self@;
        let my_index = self.my_index;
        let n: usize = self.n;
        let t: usize = self.t;
        let g = self.g;
        let mut state = DkgState::Idle;
        std::mem::swap(&mut state, &mut self.state);
        match state {
            DkgState::AwaitingShares(c, mut s) => {
                let ghost cv = point_lists(c@);
                let ghost sv = s@;
                proof {
                    keymap::lemma_finite(c);
                    keymap::lemma_finite(s);
                    assert(cv.dom() =~= c@.dom());
                    assert(before.phase == DkgPhase::Shares(cv, sv));
                }
                let ok = if share.index == 0 || share.index - 1 != my_index {
                    false
                } else {
                    match c.get(&sender_auth) {
                        Some(list) => verify_share_with_commitments(&share, list.as_slice(), g),
                        None => false,
                    }
                };
                assert(ok == acceptable(before, cv, sender_auth, share));
                if !ok {
                    self.state = DkgState::AwaitingShares(c, s);
                    assert(self@ == before);
                    return ;
                }
                let known = s.contains_key(&sender_auth);
                s.insert(sender_auth, share);
                let ghost s2 = sv.insert(sender_auth, share);
                proof {
                    keymap::lemma_finite(s);
                    assert(s@ == s2);
                    assert(known ==> s2.dom() =~= sv.dom());
                    assert forall|k: u64| #[trigger] s2.dom().contains(k) implies acceptable(
                        before,
                        cv,
                        k,
                        s2[k],
                    ) by {
                        if k != sender_auth {
                            assert(sv.dom().contains(k));
                        }
                    }
                }
                if !known && s.len() == n {
                    proof {
                        assert(commitments_complete(cv, before.t, before.n));
                        assert forall|i: u64| i < n implies cv.dom().contains(i) by {}
                        lemma_only_below(cv.dom(), n as nat);
                        assert forall|k: u64| s2.dom().contains(k) implies k < n by {
                            assert(acceptable(before, cv, k, s2[k]));
                        }
                        lemma_all_below(s2.dom(), n as nat);
                    }
                    let keys = aggregate_keys(&c, &s, t, n);
                    self.keys = Some(keys);
                    self.state = DkgState::Complete;
                    assert(self@ == share_step(before, sender_auth, share));
                } else {
                    self.state = DkgState::AwaitingShares(c, s);
                    assert(self@ == share_step(before, sender_auth, share));
                }
            },
            DkgState::Idle => {
                self.pending_shares.insert(sender_auth, share);
                assert(self@ == share_step(before, sender_auth, share));
            },
            DkgState::AwaitingCommitments(c) => {
                self.state = DkgState::AwaitingCommitments(c);
                self.pending_shares.insert(sender_auth, share);
                assert(self@ == share_step(before, sender_auth, share));
            },
            DkgState::Complete => {
                self.state = DkgState::Complete;
                assert(self@ == before);
            },
            DkgState::AwaitingPartialDecryptions(p) => {
                self.state = DkgState::AwaitingPartialDecryptions(p);
                assert(self@ == before);
            },
        }
    }
}

impl DkgManager {
    /// The shares that are to be sent, with their receivers.
    fn shares_for_peers(&self) -> (r: Vec<(AuthorityIndex, Share)>)
        requires
            self.wf(),
        ensures
            r@ == share_sends(
                self@.shares_to_send,
                self@.my_index,
                self@.peers,
                self@.shares_to_send.len() as int,
            ),
    {
        let mut out: Vec<(u64, Share)> = Vec::new();
        let mut i: usize = 0;
        while i < self.my_shares_to_send.len()
            invariant
                i <= self.my_shares_to_send@.len(),
                self.wf(),
                self@.shares_to_send == self.my_shares_to_send@,
                self@.peers == self.peers@,
                self@.my_index == self.my_index,
                out@ == share_sends(
                    self@.shares_to_send,
                    self@.my_index,
                    self@.peers,
                    i as int,
                ),
            decreases self.my_shares_to_send@.len() - i,
        {
            let share = self.my_shares_to_send[i];
            assert(self@.shares_to_send[i as int].index == i + 1);
            let dest: u64 = share.index - 1;
            if dest != self.my_index && contains_peer(&self.peers, dest) {
                out.push((dest, share));
            }
            i = i + 1;
        }
        out
    }

    /// A commitment arrives. Gives the shares to send now, with their
    /// receivers: all of them where this was the last commitment, else none.
    pub fn handle_commitment(&mut self, sender_auth: AuthorityIndex, commits: Vec<Point>) -> (r: Vec<
        (AuthorityIndex, Share),
    >)
        requires
            old(self).wf(),
            commitment_safe(old(self)@, sender_auth, commits@),
        ensures
            final(self).wf(),
            final(self)@ == commitment_step(old(self)@, sender_auth, commits@),
            r@ == (if commitment_completes(old(self)@, sender_auth, commits@) {
                share_sends(
                    old(self)@.shares_to_send,
                    old(self)@.my_index,
                    old(self)@.peers,
                    old(self)@.shares_to_send.len() as int,
                )
            } else {
                Seq::empty()
            }),
    {
        let ghost before = self@;
        let ghost cs = commits@;
        let mut state = DkgState::Idle;
        std::mem::swap(&mut state, &mut self.state);
        let mut c = match state {
            DkgState::Idle => KeyMap::new(),
            DkgState::AwaitingCommitments(c) => c,
            other => {
                self.state = other;
                assert(self@ == before);
                return Vec::new();
            },
        };
        let ghost cv = point_lists(c@);
        proof {
            keymap::lemma_finite(c);
            assert(cv.dom() =~= c@.dom());
            if before.phase is Idle {
                assert(cv =~= Map::<u64, Seq<Point>>::empty());
            }
            assert(received_commitments(before) == Some(cv));
        }
        let known = c.contains_key(&sender_auth);
        c.insert(sender_auth, commits);
        let ghost c2 = cv.insert(sender_auth, cs);
        proof {
            keymap::lemma_finite(c);
            assert(point_lists(c@) =~= c2);
            assert(c2.dom() =~= c@.dom());
            if known {
                assert(c2.dom() =~= cv.dom());
            }
        }
        if known || c.len() != self.n {
            self.state = DkgState::AwaitingCommitments(c);
            assert(self@ == commitment_step(before, sender_auth, cs));
            return Vec::new();
        }
        assert(commitment_completes(before, sender_auth, cs));
        self.state = DkgState::AwaitingShares(c, KeyMap::new());
        assert(self@ == awaiting_shares(before, sender_auth, cs));
        let sends = self.shares_for_peers();
        let own = self.my_shares_to_send[self.my_index as usize];
        self.handle_share(self.my_index, own);
        let mut pending: KeyMap<u64, Share> = KeyMap::new();
        std::mem::swap(&mut pending, &mut self.pending_shares);
        let ghost start = own_share_taken(before, sender_auth, cs);
        let ghost list = before.pending;
        assert(pending.entries@ == list);
        assert(self.pending_shares.entries@ =~= Seq::<(u64, Share)>::empty());
        assert(self@ == start);
        let mut i: usize = 0;
        while i < pending.entries.len()
            invariant
                i <= pending.entries@.len(),
                pending.entries@ == list,
                self.wf(),
                self@ == replay(start, list, i as nat),
                replay_safe(start, list),
            decreases pending.entries@.len() - i,
        {
            let (sender, share) = pending.entries[i];
            let ghost k = i as int;
            assert(share_safe(replay(start, list, k as nat), list[k].0, list[k].1));
            self.handle_share(sender, share);
            i = i + 1;
        }
        sends
    }

    /// What a participant deals when it starts: shares and commitments of a
    /// polynomial that its seed determines.
    pub open spec fn dealt(v: DkgView, shares: Seq<Share>, commits: Seq<Point>) -> bool {
        exists|coeffs: Seq<Scalar>, secret: Scalar|
            secret@ == dkg::seeded_scalar(dkg::seed_of(v.seed.wrapping_add(v.my_index)), 0)
                && #[trigger] elgamal::drawn_coeffs(
                coeffs,
                secret,
                v.t as int,
                dkg::seed_of(v.seed.wrapping_add(v.my_index)),
                1,
            ) && elgamal::deals(shares, coeffs, v.n as int) && elgamal::commits_to(
                commits,
                coeffs,
                v.g,
            )
    }

    /// A participant starts where it awaits commitments and has none itself.
    pub open spec fn may_start(v: DkgView) -> bool {
        (v.phase is Idle || v.phase is Commitments) && v.commits.len() == 0
    }

    /// The state with the own shares and commitments.
    pub open spec fn with_dealt(v: DkgView, shares: Seq<Share>, commits: Seq<Point>) -> DkgView {
        DkgView { shares_to_send: shares, commits, ..v }
    }

    /// What a start with these shares and commitments leads to: the state, and the
    /// shares to send now.
    pub open spec fn started(
        before: DkgView,
        after: DkgView,
        shares: Seq<Share>,
        commits: Seq<Point>,
        sends: Seq<(AuthorityIndex, Share)>,
    ) -> bool {
        let v = Self::with_dealt(before, shares, commits);
        &&& after == commitment_step(v, v.my_index, commits)
        &&& sends == (if commitment_completes(v, v.my_index, commits) {
            share_sends(shares, v.my_index, v.peers, shares.len() as int)
        } else {
            Seq::empty()
        })
    }

    /// The own commitments, none before the start.
    pub fn commitments(&self) -> (r: &Vec<Point>)
        ensures
            r@ == self@.commits,
    {
        &self.my_commits
    }

    /// Starts: deals the own shares and commits to them. Gives the peers to
    /// send the commitments to, and the shares to send now; `None` where the
    /// participant has started already.
    pub fn start_dkg(&mut self) -> (r: Option<(Vec<AuthorityIndex>, Vec<(AuthorityIndex, Share)>)>)
        requires
            old(self).wf(),
            forall|shares: Seq<Share>, commits: Seq<Point>|
                Self::may_start(old(self)@) && #[trigger] Self::dealt(old(self)@, shares, commits)
                    ==> commitment_safe(
                    Self::with_dealt(old(self)@, shares, commits),
                    old(self)@.my_index,
                    commits,
                ),
        ensures
            final(self).wf(),
            r is Some == Self::may_start(old(self)@),
            r is None ==> final(self)@ == old(self)@,
            r matches Some(out) ==> out.0@ == old(self)@.peers && exists|
                shares: Seq<Share>,
                commits: Seq<Point>,
            | #[trigger]
                Self::dealt(old(self)@, shares, commits) && Self::started(
                    old(self)@,
                    final(self)@,
                    shares,
                    commits,
                    out.1@,
                ),
    {
        let ghost before = self@;
        let awaits = match &self.state {
            DkgState::Idle => true,
            DkgState::AwaitingCommitments(_) => true,
            _ => false,
        };
        if !awaits || self.my_commits.len() > 0 {
            return None;
        }
        let mut rng = get_dkg_rng_for_participant(self.global_seed, self.my_index);
        let secret = rng.next_scalar();
        let (shares, coeffs, commits) = shamir_split_with_commitments(
            secret,
            self.t,
            self.n,
            self.g,
            &mut rng,
        );
        assert(elgamal::drawn_coeffs(
            coeffs@,
            secret,
            before.t as int,
            dkg::seed_of(before.seed.wrapping_add(before.my_index)),
            1,
        ));
        assert(Self::dealt(before, shares@, commits@));
        let ghost sv = shares@;
        let ghost cv = commits@;
        self.my_shares_to_send = shares;
        self.my_commits = copy_points(&commits);
        assert(self@ == Self::with_dealt(before, sv, cv));
        let mut to: Vec<u64> = Vec::new();
        let mut i: usize = 0;
        while i < self.peers.len()
            invariant
                i <= self.peers@.len(),
                to@ == self.peers@.take(i as int),
            decreases self.peers@.len() - i,
        {
            to.push(self.peers[i]);
            i = i + 1;
            assert(self.peers@.take(i as int) =~= self.peers@.take(i - 1).push(self.peers@[i - 1]));
        }
        assert(self.peers@.take(i as int) =~= self.peers@);
        let sends = self.handle_commitment(self.my_index, commits);
        Some((to, sends))
    }

    /// The joint public key and the own share of its secret, where the key
    /// generation is complete and no decryption is in progress.
    pub fn get_keys(&self) -> (r: Option<(Point, Scalar)>)
        requires
            self.wf(),
        ensures
            r is Some == self@.phase is Complete,
            r matches Some(k) ==> self@.keys == Some((k.0.log(), k.1@)),
    {
        match &self.state {
            DkgState::Complete => self.keys,
            _ => None,
        }
    }
}

/// What a partial decryption does: the first one begins the tally, and each
/// sender's latest is kept.
pub open spec fn partial_step(v: DkgView, sender: u64, bytes: Seq<u8>) -> DkgView {
    match v.phase {
        DkgPhase::Complete => DkgView {
            phase: DkgPhase::Tally(Map::empty().insert(sender, bytes)),
            ..v
        },
        DkgPhase::Tally(p) => DkgView { phase: DkgPhase::Tally(p.insert(sender, bytes)), ..v },
        _ => v,
    }
}

/// The partial decryptions that have been received.
pub open spec fn received_partials(v: DkgView) -> Map<u64, Seq<u8>> {
    match v.phase {
        DkgPhase::Tally(p) => p,
        _ => Map::empty(),
    }
}

/// A partial decryption is a new one, and there are enough with it.
pub open spec fn partial_suffices(v: DkgView, sender: u64, bytes: Seq<u8>) -> bool {
    &&& v.phase is Complete || v.phase is Tally
    &&& !received_partials(v).dom().contains(sender)
    &&& received_partials(v).insert(sender, bytes).len() >= v.t
}

/// What a request for the partial decryptions is answered.
pub enum CollectStep {
    /// There are enough: here they are.
    Ready(Vec<(AuthorityIndex, Vec<u8>)>),
    /// They are to be waited for.
    Wait,
    /// The key generation is not complete.
    NotComplete,
}

/// A list holds the entries of a map, each once.
pub open spec fn lists_map(list: Seq<(u64, Vec<u8>)>, m: Map<u64, Seq<u8>>) -> bool {
    &&& list.len() == m.len()
    &&& forall|i: int|
        0 <= i < list.len() ==> m.dom().contains((#[trigger] list[i]).0) && m[list[i].0]
            == list[i].1@
    &&& forall|i: int, j: int| 0 <= i < j < list.len() ==> list[i].0 != list[j].0
}

proof fn lemma_lists_map(m: KeyMap<u64, Vec<u8>>)
    requires
        m.wf(),
    ensures
        lists_map(m.entries@, byte_lists(m@)),
{
    keymap::lemma_finite(m);
    assert(byte_lists(m@).dom() =~= m@.dom());
    assert forall|i: int| 0 <= i < m.entries@.len() implies byte_lists(m@).dom().contains(
        (#[trigger] m.entries@[i]).0,
    ) && byte_lists(m@)[m.entries@[i].0] == m.entries@[i].1@ by {
        keymap::lemma_entry(m, i);
    }
}

impl DkgManager {
    /// A partial decryption arrives. Tells whether there are enough with it.
    pub fn handle_partial_decryption(
        &mut self,
        sender_auth: AuthorityIndex,
        share_bytes: Vec<u8>,
    ) -> (enough: bool)
        requires
            old(self).wf(),
        ensures
            final(self).wf(),
            final(self)@ == partial_step(old(self)@, sender_auth, share_bytes@),
            enough == partial_suffices(old(self)@, sender_auth, share_bytes@),
    {
        let ghost before = self@;
        let ghost bytes = share_bytes@;
        let mut state = DkgState::Idle;
        std::mem::swap(&mut state, &mut self.state);
        let mut p = match state {
            DkgState::Complete => KeyMap::new(),
            DkgState::AwaitingPartialDecryptions(p) => p,
            other => {
                self.state = other;
                assert(self@ == before);
                return false;
            },
        };
        let ghost pv = byte_lists(p@);
        proof {
            if before.phase is Complete {
                assert(pv =~= Map::<u64, Seq<u8>>::empty());
            }
        }
        let known = p.contains_key(&sender_auth);
        p.insert(sender_auth, share_bytes);
        proof {
            keymap::lemma_finite(p);
            assert(byte_lists(p@) =~= pv.insert(sender_auth, bytes));
            assert(pv.insert(sender_auth, bytes).dom() =~= p@.dom());
        }
        let enough = !known && p.len() >= self.t;
        self.state = DkgState::AwaitingPartialDecryptions(p);
        assert(self@ == partial_step(before, sender_auth, bytes));
        enough
    }

    /// The own partial decryption is to be sent: gives the peers to send it to
    /// and whether there are enough with it; `None` where the key generation
    /// is not complete or a tally is in progress.
    pub fn broadcast_partial_decryption(&mut self, partial_share_bytes: Vec<u8>) -> (r: Option<
        (Vec<AuthorityIndex>, bool),
    >)
        requires
            old(self).wf(),
        ensures
            final(self).wf(),
            r is Some == old(self)@.phase is Complete,
            r is None ==> final(self)@ == old(self)@,
            r matches Some(out) ==> {
                &&& out.0@ == old(self)@.peers
                &&& out.1 == partial_suffices(
                    old(self)@,
                    old(self)@.my_index,
                    partial_share_bytes@,
                )
                &&& final(self)@ == partial_step(
                    old(self)@,
                    old(self)@.my_index,
                    partial_share_bytes@,
                )
            },
    {
        let complete = match &self.state {
            DkgState::Complete => true,
            _ => false,
        };
        if !complete {
            return None;
        }
        let mut to: Vec<u64> = Vec::new();
        let mut i: usize = 0;
        while i < self.peers.len()
            invariant
                i <= self.peers@.len(),
                to@ == self.peers@.take(i as int),
            decreases self.peers@.len() - i,
        {
            to.push(self.peers[i]);
            i = i + 1;
            assert(self.peers@.take(i as int) =~= self.peers@.take(i - 1).push(self.peers@[i - 1]));
        }
        assert(self.peers@.take(i as int) =~= self.peers@);
        let enough = self.handle_partial_decryption(self.my_index, partial_share_bytes);
        Some((to, enough))
    }

    /// Asks for the partial decryptions: where there are enough they are handed
    /// out and the tally ends; else it begins or goes on.
    pub fn begin_collect(&mut self) -> (r: CollectStep)
        requires
            old(self).wf(),
        ensures
            final(self).wf(),
            match old(self)@.phase {
                DkgPhase::Complete => r is Wait && final(self)@ == (DkgView {
                    phase: DkgPhase::Tally(Map::empty()),
                    ..old(self)@
                }),
                DkgPhase::Tally(p) => if p.len() >= old(self)@.t {
                    final(self)@ == (DkgView { phase: DkgPhase::Complete, ..old(self)@ }) && (
                    r matches CollectStep::Ready(list) && lists_map(list@, p))
                } else {
                    r is Wait && final(self)@ == old(self)@
                },
                _ => r is NotComplete && final(self)@ == old(self)@,
            },
    {
        let ghost before = self@;
        let mut state = DkgState::Idle;
        std::mem::swap(&mut state, &mut self.state);
        match state {
            DkgState::Complete => {
                self.state = DkgState::AwaitingPartialDecryptions(KeyMap::new());
                assert(byte_lists(Map::<u64, Vec<u8>>::empty()) =~= Map::empty());
                assert(self@ == (DkgView { phase: DkgPhase::Tally(Map::empty()), ..before }));
                CollectStep::Wait
            },
            DkgState::AwaitingPartialDecryptions(p) => {
                proof {
                    keymap::lemma_finite(p);
                    assert(byte_lists(p@).dom() =~= p@.dom());
                    lemma_lists_map(p);
                }
                if p.len() >= self.t {
                    self.state = DkgState::Complete;
                    assert(self@ == (DkgView { phase: DkgPhase::Complete, ..before }));
                    CollectStep::Ready(p.entries)
                } else {
                    self.state = DkgState::AwaitingPartialDecryptions(p);
                    assert(self@ == before);
                    CollectStep::Wait
                }
            },
            other => {
                self.state = other;
                assert(self@ == before);
                CollectStep::NotComplete
            },
        }
    }

    /// Ends a tally that was waited for, and hands out what it holds.
    pub fn finish_collect(&mut self) -> (r: Vec<(AuthorityIndex, Vec<u8>)>)
        requires
            old(self).wf(),
        ensures
            match old(self)@.phase {
                DkgPhase::Tally(p) => final(self).wf() && final(self)@ == (DkgView {
                    phase: DkgPhase::Complete,
                    ..old(self)@
                }) && lists_map(r@, p),
                _ => r@.len() == 0 && final(self)@ == (DkgView {
                    phase: DkgPhase::Complete,
                    ..old(self)@
                }),
            },
    {
        let ghost before = self@;
        let mut state = DkgState::Complete;
        std::mem::swap(&mut state, &mut self.state);
        assert(self@ == (DkgView { phase: DkgPhase::Complete, ..before }));
        match state {
            DkgState::AwaitingPartialDecryptions(p) => {
                proof {
                    lemma_lists_map(p);
                }
                p.entries
            },
            _ => Vec::new(),
        }
    }
}

/// The committed polynomials' values at `x`, one for each participant.
pub open spec fn committed_value(commits: Map<u64, Seq<Point>>, x: int) -> spec_fn(int) -> int {
    |i: int| modular::poly(elgamal::logs(commits[i as u64]), x)
}

/// The coefficients of the joint polynomial: the sums of the participants'.
pub open spec fn joint_polynomial(commits: Map<u64, Seq<Point>>, t: nat, n: nat) -> Seq<int> {
    Seq::new(
        t,
        |k: int| modular::sum(n, |i: int| elgamal::logs(commits[i as u64])[k]),
    )
}

proof fn lemma_joint_poly(commits: Map<u64, Seq<Point>>, t: nat, n: nat, x: int)
    requires
        forall|i: u64| i < n ==> (#[trigger] commits[i]).len() == t,
        n <= u64::MAX,
    ensures
        modular::poly(joint_polynomial(commits, t, n), x) == modular::sum(
            n,
            committed_value(commits, x),
        ),
    decreases n,
{
    let j = joint_polynomial(commits, t, n);
    let term = |k: int| j[k] * vstd::arithmetic::power::pow(x, k as nat);
    if n == 0 {
        let z = |k: int| 0int;
        assert forall|k: int| 0 <= k < t implies #[trigger] term(k) == z(k) by {
            assert(j[k] == 0);
            assert(0 * vstd::arithmetic::power::pow(x, k as nat) == 0) by (nonlinear_arith);
        }
        modular::lemma_sum_ext(t, term, z);
        modular::lemma_sum_zero(t);
    } else {
        let m = (n - 1) as nat;
        let last = elgamal::logs(commits[m as u64]);
        let jm = joint_polynomial(commits, t, m);
        lemma_joint_poly(commits, t, m, x);
        let a = |k: int| jm[k] * vstd::arithmetic::power::pow(x, k as nat);
        let b = |k: int| last[k] * vstd::arithmetic::power::pow(x, k as nat);
        let ab = |k: int| a(k) + b(k);
        assert(commits[m as u64].len() == t);
        assert forall|k: int| 0 <= k < t implies #[trigger] term(k) == ab(k) by {
            let f = |i: int| elgamal::logs(commits[i as u64])[k];
            assert(modular::sum(n, f) == modular::sum(m, f) + f(m as int));
            let p = vstd::arithmetic::power::pow(x, k as nat);
            let u = jm[k];
            let w = last[k];
            assert((u + w) * p == u * p + w * p) by (nonlinear_arith);
        }
        modular::lemma_sum_ext(t, term, ab);
        modular::lemma_sum_plus(t, a, b);
        assert(last.len() == t);
        assert(jm.len() == t);
        let cv = committed_value(commits, x);
        assert(modular::sum(n, cv) == modular::sum(m, cv) + cv(m as int));
    }
}

/// The keys of the participants belong together: where all have the same
/// commitments, to `t` coefficients each, and hold acceptable shares, the
/// participants' key shares lie on the joint polynomial, whose constant term is
/// the logarithm of the joint public key. By the contract of
/// `reconstruct_secret`, the key shares of any `t` of them give it back, and by
/// that of `combine_shares_threshold` any `t` of them decrypt.
pub proof fn law_key_shares_share_the_joint_key(
    v: DkgView,
    commits: Map<u64, Seq<Point>>,
    shares: Map<u64, Share>,
)
    requires
        dkg_valid(v),
        v.n <= u64::MAX,
        forall|i: u64| i < v.n ==> #[trigger] commits.dom().contains(i) && commits[i].len() == v.t,
        forall|i: u64| i < v.n ==> #[trigger] shares.dom().contains(i) && acceptable(v, commits, i, shares[i]),
    ensures
        joint_keys(commits, shares, v.n).1 == modular::poly(
            joint_polynomial(commits, v.t, v.n),
            v.my_index + 1,
        ) % field::scalar_order(),
        joint_keys(commits, shares, v.n).0 == joint_polynomial(commits, v.t, v.n)[0]
            % field::scalar_order(),
{
    let o = field::scalar_order();
    let x = v.my_index + 1;
    assert forall|i: u64| i < v.n implies (#[trigger] commits[i]).len() == v.t by {
        assert(commits.dom().contains(i));
    }
    lemma_joint_poly(commits, v.t, v.n, x);
    let f = share_term(shares);
    let h = committed_value(commits, x);
    assert forall|i: int| 0 <= i < v.n implies modular::eqm(#[trigger] f(i), h(i), o) by {
        let k = i as u64;
        assert(shares.dom().contains(k));
        assert(acceptable(v, commits, k, shares[k]));
        assert(1 * shares[k].value@ == shares[k].value@);
    }
    modular::lemma_sum_eqm(v.n, f, h, o);
    let a = key_term(commits);
    let b = |i: int| elgamal::logs(commits[i as u64])[0];
    assert forall|i: int| 0 <= i < v.n implies #[trigger] a(i) == b(i) by {
        assert(commits.dom().contains(i as u64));
    }
    modular::lemma_sum_ext(v.n, a, b);
}

/// Participants that have received the same commitments complete with the same
/// joint public key, whichever shares they hold and whichever came last.
pub proof fn law_participants_agree_on_the_key(
    v: DkgView,
    w: DkgView,
    commits: Map<u64, Seq<Point>>,
    from_v: (u64, Share),
    from_w: (u64, Share),
)
    requires
        v.phase matches DkgPhase::Shares(c, s) && c == commits,
        w.phase matches DkgPhase::Shares(c, s) && c == commits,
        v.n == w.n,
        share_step(v, from_v.0, from_v.1).phase is Complete,
        share_step(w, from_w.0, from_w.1).phase is Complete,
    ensures
        share_step(v, from_v.0, from_v.1).keys is Some,
        share_step(w, from_w.0, from_w.1).keys is Some,
        share_step(v, from_v.0, from_v.1).keys.unwrap().0 == share_step(
            w,
            from_w.0,
            from_w.1,
        ).keys.unwrap().0,
{
}

/// The participant `i` of the key generation that `v` takes part in has dealt with
/// these commitments.
pub open spec fn dealt_by(v: DkgView, i: u64, commits: Seq<Point>) -> bool {
    exists|shares: Seq<Share>| #[trigger]
        DkgManager::dealt(DkgView { my_index: i, ..v }, shares, commits)
}

/// Where every participant has dealt as it should, the joint public key that a
/// participant completes with is the one that `run_dkg_simulation_for_data_generator`
/// gives for the same number of participants and the same seed.
pub proof fn law_key_is_that_of_the_simulation(
    v: DkgView,
    commits: Map<u64, Seq<Point>>,
    last: (u64, Share),
    simulated: Point,
)
    requires
        dkg_valid(v),
        v.n <= u64::MAX,
        v.phase matches DkgPhase::Shares(c, s) && c == commits,
        forall|i: u64| i < v.n ==> dealt_by(v, i, #[trigger] commits[i]),
        share_step(v, last.0, last.1).phase is Complete,
        simulated.log() == modular::sum(v.n, dkg::contribution(v.seed)) % field::scalar_order(),
    ensures
        share_step(v, last.0, last.1).keys is Some,
        share_step(v, last.0, last.1).keys.unwrap().0 == simulated.log(),
{
    broadcast use field::lemma_scalar_range;

    let o = field::scalar_order();
    let f = key_term(commits);
    let h = dkg::contribution(v.seed);
    assert forall|i: int| 0 <= i < v.n implies #[trigger] f(i) == h(i) by {
        let k = i as u64;
        assert(dealt_by(v, k, commits[k]));
        let shares = choose|shares: Seq<Share>| #[trigger]
            DkgManager::dealt(DkgView { my_index: k, ..v }, shares, commits[k]);
        let w = DkgView { my_index: k, ..v };
        let (coeffs, secret): (Seq<Scalar>, Scalar) = choose|coeffs: Seq<Scalar>, secret: Scalar|
            secret@ == dkg::seeded_scalar(dkg::seed_of(w.seed.wrapping_add(w.my_index)), 0)
                && #[trigger] elgamal::drawn_coeffs(
                coeffs,
                secret,
                w.t as int,
                dkg::seed_of(w.seed.wrapping_add(w.my_index)),
                1,
            ) && elgamal::deals(shares, coeffs, w.n as int) && elgamal::commits_to(
                commits[k],
                coeffs,
                w.g,
            );
        assert(commits[k][0].log() == (v.g.log() * coeffs[0]@) % o);
        assert(1 * secret@ == secret@);
        modular::lemma_small(secret@, o);
    }
    modular::lemma_sum_ext(v.n, f, h);
}

/// What a participant deals: a share for each participant in turn, and the commitments.
pub struct Dealing {
    pub shares: Seq<Share>,
    pub commits: Seq<Point>,
}

/// What happens to a participant: it starts, or receives the commitments of another
/// one, or its share from another one.
pub enum DkgEvent {
    Start,
    Commitments(u64),
    Share(u64),
}

/// What an event does, where the participants deal `d`.
pub open spec fn event_step(v: DkgView, d: Seq<Dealing>, e: DkgEvent) -> DkgView {
    match e {
        DkgEvent::Start => if DkgManager::may_start(v) {
            let own = d[v.my_index as int];
            commitment_step(
                DkgManager::with_dealt(v, own.shares, own.commits),
                v.my_index,
                own.commits,
            )
        } else {
            v
        },
        DkgEvent::Commitments(j) => commitment_step(v, j, d[j as int].commits),
        DkgEvent::Share(j) => share_step(v, j, d[j as int].shares[v.my_index as int]),
    }
}

/// The first `k` events, one after the other.
pub open spec fn run(v: DkgView, d: Seq<Dealing>, events: Seq<DkgEvent>, k: int) -> DkgView
    decreases k,
{
    if k <= 0 {
        v
    } else {
        event_step(run(v, d, events, k - 1), d, events[k - 1])
    }
}

/// An event can happen to a participant: what it receives is of another one.
pub open spec fn can_happen(e: DkgEvent, my_index: u64, n: nat) -> bool {
    match e {
        DkgEvent::Start => true,
        DkgEvent::Commitments(j) => j < n && j != my_index,
        DkgEvent::Share(j) => j < n && j != my_index,
    }
}

/// Whose commitments a participant has after the first `k` events, its own included.
pub open spec fn committed(my_index: u64, events: Seq<DkgEvent>, k: int) -> Set<u64>
    decreases k,
{
    if k <= 0 {
        Set::empty()
    } else {
        match events[k - 1] {
            DkgEvent::Start => committed(my_index, events, k - 1).insert(my_index),
            DkgEvent::Commitments(j) => committed(my_index, events, k - 1).insert(j),
            DkgEvent::Share(_) => committed(my_index, events, k - 1),
        }
    }
}

/// From whom a participant has received its shares after the first `k` events.
pub open spec fn shared(events: Seq<DkgEvent>, k: int) -> Set<u64>
    decreases k,
{
    if k <= 0 {
        Set::empty()
    } else {
        match events[k - 1] {
            DkgEvent::Share(j) => shared(events, k - 1).insert(j),
            _ => shared(events, k - 1),
        }
    }
}

/// All participants are in a set.
pub open spec fn all_in(s: Set<u64>, n: nat) -> bool {
    forall|j: u64| j < n ==> #[trigger] s.contains(j)
}

/// A participant has started, and has received the commitments of all others and its
/// shares from them.
pub open spec fn received_all(my_index: u64, n: nat, events: Seq<DkgEvent>) -> bool {
    &&& all_in(committed(my_index, events, events.len() as int), n)
    &&& all_in(shared(events, events.len() as int).insert(my_index), n)
}

/// The commitments of some participants.
spec fn gathered(d: Seq<Dealing>, s: Set<u64>) -> Map<u64, Seq<Point>> {
    Map::new(|j: u64| s.contains(j), |j: u64| d[j as int].commits)
}

/// The shares for a participant from some participants.
spec fn held(d: Seq<Dealing>, i: u64, s: Set<u64>) -> Map<u64, Share> {
    Map::new(|j: u64| s.contains(j), |j: u64| d[j as int].shares[i as int])
}

/// A finite set of participants.
spec fn below(s: Set<u64>, n: nat) -> bool {
    s.finite() && forall|j: u64| #[trigger] s.contains(j) ==> j < n
}

/// The participants' shares are confirmed by their commitments.
spec fn sound(d: Seq<Dealing>, v: DkgView) -> bool {
    &&& forall|j: int| 0 <= j < v.n ==> (#[trigger] d[j]).commits.len() == v.t
    &&& forall|j: int|
        0 <= j < v.n ==> {
            let share = (#[trigger] d[j]).shares[v.my_index as int];
            share.index == v.my_index + 1 && elgamal::share_matches(share, d[j].commits, v.g)
        }
}

/// The shares that wait are those from `ss`.
spec fn waiting(pending: Seq<(u64, Share)>, d: Seq<Dealing>, i: u64, ss: Set<u64>) -> bool {
    &&& forall|k: int|
        0 <= k < pending.len() ==> ss.contains((#[trigger] pending[k]).0) && pending[k].1
            == d[pending[k].0 as int].shares[i as int]
    &&& forall|j: u64| #[trigger]
        ss.contains(j) ==> exists|k: int| 0 <= k < pending.len() && (#[trigger] pending[k]).0 == j
}

/// What does not change.
spec fn same_participant(v: DkgView, v0: DkgView) -> bool {
    &&& v.my_index == v0.my_index
    &&& v.n == v0.n
    &&& v.t == v0.t
    &&& v.g == v0.g
    &&& v.seed == v0.seed
}

/// All commitments are there, and the shares from `hs`.
spec fn sharing(v: DkgView, v0: DkgView, d: Seq<Dealing>, cs: Set<u64>, hs: Set<u64>) -> bool {
    &&& same_participant(v, v0)
    &&& all_in(cs, v0.n)
    &&& below(cs, v0.n)
    &&& below(hs, v0.n)
    &&& v.commits == d[v0.my_index as int].commits
    &&& if all_in(hs, v0.n) {
        v.phase is Complete && v.keys == Some(
            joint_keys(gathered(d, cs), held(d, v0.my_index, hs), v0.n),
        )
    } else {
        v.phase == DkgPhase::Shares(gathered(d, cs), held(d, v0.my_index, hs)) && v.keys is None
    }
}

/// How far a participant is that has the commitments of `cs` and shares from `ss`.
spec fn progress(v: DkgView, v0: DkgView, d: Seq<Dealing>, cs: Set<u64>, ss: Set<u64>) -> bool {
    let i = v0.my_index;
    &&& same_participant(v, v0)
    &&& below(cs, v0.n)
    &&& below(ss, v0.n)
    &&& if all_in(cs, v0.n) {
        sharing(v, v0, d, cs, ss.insert(i))
    } else {
        &&& v.keys is None
        &&& received_commitments(v) == Some(gathered(d, cs))
        &&& waiting(v.pending, d, i, ss)
        &&& if cs.contains(i) {
            v.commits == d[i as int].commits && v.shares_to_send == d[i as int].shares
        } else {
            v.commits.len() == 0
        }
    }
}

/// A set of participants holds as many as there are exactly where it holds all.
proof fn lemma_all_in(s: Set<u64>, n: nat)
    requires
        below(s, n),
        n <= u64::MAX,
    ensures
        (s.len() == n) == all_in(s, n),
        s.len() <= n,
{
    lemma_full_size(n);
    let full = Set::new(|j: u64| j < n);
    vstd::set_lib::lemma_len_subset(s, full);
    if s.len() == n {
        lemma_all_below(s, n);
    }
    if all_in(s, n) {
        assert(s =~= full);
    }
}

proof fn lemma_full_size(n: nat)
    requires
        n <= u64::MAX,
    ensures
        Set::new(|j: u64| j < n).finite(),
        Set::new(|j: u64| j < n).len() == n,
    decreases n,
{
    let s = Set::new(|j: u64| j < n);
    if n == 0 {
        assert(s =~= Set::empty());
    } else {
        let m = (n - 1) as nat;
        lemma_full_size(m);
        let r = Set::new(|j: u64| j < m);
        assert(s =~= r.insert(m as u64));
    }
}

/// A share from a participant is taken.
proof fn lemma_share_taken(
    v: DkgView,
    v0: DkgView,
    d: Seq<Dealing>,
    cs: Set<u64>,
    hs: Set<u64>,
    j: u64,
)
    requires
        sharing(v, v0, d, cs, hs),
        sound(d, v0),
        j < v0.n <= u64::MAX,
    ensures
        sharing(
            share_step(v, j, d[j as int].shares[v0.my_index as int]),
            v0,
            d,
            cs,
            hs.insert(j),
        ),
{
    let i = v0.my_index;
    let share = d[j as int].shares[i as int];
    let h2 = hs.insert(j);
    lemma_all_in(hs, v0.n);
    lemma_all_in(h2, v0.n);
    if all_in(hs, v0.n) {
        assert(h2 =~= hs);
    } else {
        let c = gathered(d, cs);
        let s = held(d, i, hs);
        let s2 = s.insert(j, share);
        assert(s2 =~= held(d, i, h2));
        assert(s.dom() =~= hs);
        assert(s2.dom() =~= h2);
        assert(cs.contains(j));
        assert(c[j] == d[j as int].commits);
        assert(d[j as int].commits.len() == v0.t);
        assert(acceptable(v, c, j, share));
        if hs.contains(j) {
            assert(h2 =~= hs);
        }
    }
}

/// Shares that waited are taken one after the other.
proof fn lemma_replayed(
    v: DkgView,
    v0: DkgView,
    d: Seq<Dealing>,
    cs: Set<u64>,
    hs: Set<u64>,
    list: Seq<(u64, Share)>,
    ss: Set<u64>,
    k: nat,
) -> (h2: Set<u64>)
    requires
        sharing(v, v0, d, cs, hs),
        sound(d, v0),
        v0.n <= u64::MAX,
        below(ss, v0.n),
        waiting(list, d, v0.my_index, ss),
        k <= list.len(),
    ensures
        sharing(replay(v, list, k), v0, d, cs, h2),
        forall|j: u64| #[trigger]
            h2.contains(j) <==> hs.contains(j) || exists|m: int|
                0 <= m < k && (#[trigger] list[m]).0 == j,
    decreases k,
{
    if k == 0 {
        hs
    } else {
        let h1 = lemma_replayed(v, v0, d, cs, hs, list, ss, (k - 1) as nat);
        let w = replay(v, list, (k - 1) as nat);
        let j = list[k - 1].0;
        assert(ss.contains(j));
        lemma_share_taken(w, v0, d, cs, h1, j);
        let h2 = h1.insert(j);
        assert forall|x: u64| #[trigger] h2.contains(x) <==> hs.contains(x) || exists|m: int|
            0 <= m < k && (#[trigger] list[m]).0 == x by {
            if h1.contains(x) && !hs.contains(x) {
                let m = choose|m: int| 0 <= m < k - 1 && (#[trigger] list[m]).0 == x;
                assert(list[m].0 == x);
            }
            if exists|m: int| 0 <= m < k && (#[trigger] list[m]).0 == x {
                let m = choose|m: int| 0 <= m < k && (#[trigger] list[m]).0 == x;
                if m < k - 1 {
                    assert(h1.contains(x));
                }
            }
        }
        h2
    }
}

/// Commitments are taken, of another participant or the own ones.
proof fn lemma_commitment_taken(
    v: DkgView,
    v0: DkgView,
    d: Seq<Dealing>,
    cs: Set<u64>,
    ss: Set<u64>,
    j: u64,
)
    requires
        same_participant(v, v0),
        below(cs, v0.n),
        below(ss, v0.n),
        !all_in(cs, v0.n),
        v.keys is None,
        received_commitments(v) == Some(gathered(d, cs)),
        waiting(v.pending, d, v0.my_index, ss),
        cs.contains(v0.my_index) || j == v0.my_index ==> v.commits
            == d[v0.my_index as int].commits && v.shares_to_send == d[v0.my_index as int].shares,
        !cs.contains(v0.my_index) && j != v0.my_index ==> v.commits.len() == 0,
        sound(d, v0),
        v0.my_index < v0.n,
        j < v0.n <= u64::MAX,
    ensures
        progress(commitment_step(v, j, d[j as int].commits), v0, d, cs.insert(j), ss),
{
    let i = v0.my_index;
    let commits = d[j as int].commits;
    let c2 = cs.insert(j);
    let c = gathered(d, cs);
    lemma_all_in(cs, v0.n);
    lemma_all_in(c2, v0.n);
    assert(c.dom() =~= cs);
    assert(c.insert(j, commits) =~= gathered(d, c2));
    assert(c.insert(j, commits).dom() =~= c2);
    if cs.contains(j) {
        assert(c2 =~= cs);
    }
    if commitment_completes(v, j, commits) {
        let none = Set::<u64>::empty();
        let a = awaiting_shares(v, j, commits);
        assert(c2.contains(i));
        assert(!all_in(none, v0.n)) by {
            assert(!none.contains(i));
        }
        assert(held(d, i, none) =~= Map::empty());
        assert(sharing(a, v0, d, c2, none));
        lemma_share_taken(a, v0, d, c2, none, i);
        let o = own_share_taken(v, j, commits);
        let h1 = none.insert(i);
        assert(sharing(o, v0, d, c2, h1));
        let h2 = lemma_replayed(o, v0, d, c2, h1, v.pending, ss, v.pending.len());
        assert(h2 =~= ss.insert(i)) by {
            assert forall|x: u64| h2.contains(x) == ss.insert(i).contains(x) by {
                if ss.contains(x) {
                    let m = choose|m: int| 0 <= m < v.pending.len() && (
                    #[trigger] v.pending[m]).0 == x;
                    assert(v.pending[m].0 == x);
                }
                if h2.contains(x) && !h1.contains(x) {
                    let m = choose|m: int| 0 <= m < v.pending.len() && (
                    #[trigger] v.pending[m]).0 == x;
                    assert(ss.contains(v.pending[m].0));
                }
            }
        }
    }
}

/// A share that waits is kept, once.
proof fn lemma_share_waits(
    pending: Seq<(u64, Share)>,
    d: Seq<Dealing>,
    i: u64,
    ss: Set<u64>,
    j: u64,
)
    requires
        waiting(pending, d, i, ss),
    ensures
        waiting(
            keymap::upsert(pending, j, d[j as int].shares[i as int]),
            d,
            i,
            ss.insert(j),
        ),
{
    let share = d[j as int].shares[i as int];
    let after = keymap::upsert(pending, j, share);
    let s2 = ss.insert(j);
    let known = exists|k: int| 0 <= k < pending.len() && (#[trigger] pending[k]).0 == j;
    if known {
        let at = keymap::position(pending, j);
        assert(0 <= at < pending.len() && pending[at].0 == j);
        assert(after =~= pending);
        assert(s2 =~= ss) by {
            assert(ss.contains(pending[at].0));
        }
    } else {
        assert(after == pending.push((j, share)));
        assert forall|x: u64| #[trigger] s2.contains(x) implies exists|k: int|
            0 <= k < after.len() && (#[trigger] after[k]).0 == x by {
            if x == j {
                assert(after[pending.len() as int].0 == x);
            } else {
                assert(ss.contains(x));
                let k = choose|k: int| 0 <= k < pending.len() && (#[trigger] pending[k]).0 == x;
                assert(after[k].0 == x);
            }
        }
    }
}

/// An event takes a participant as far as it should.
proof fn lemma_event(
    v: DkgView,
    v0: DkgView,
    d: Seq<Dealing>,
    cs: Set<u64>,
    ss: Set<u64>,
    e: DkgEvent,
)
    requires
        progress(v, v0, d, cs, ss),
        sound(d, v0),
        0 < v0.t,
        v0.my_index < v0.n <= u64::MAX,
        can_happen(e, v0.my_index, v0.n),
    ensures
        progress(
            event_step(v, d, e),
            v0,
            d,
            match e {
                DkgEvent::Start => cs.insert(v0.my_index),
                DkgEvent::Commitments(j) => cs.insert(j),
                DkgEvent::Share(_) => cs,
            },
            match e {
                DkgEvent::Share(j) => ss.insert(j),
                _ => ss,
            },
        ),
{
    let i = v0.my_index;
    match e {
        DkgEvent::Start => {
            if cs.contains(i) || all_in(cs, v0.n) {
                assert(d[i as int].commits.len() == v0.t);
                assert(cs.contains(i));
                assert(cs.insert(i) =~= cs);
                assert(!DkgManager::may_start(v));
            } else {
                let own = d[i as int];
                let w = DkgManager::with_dealt(v, own.shares, own.commits);
                lemma_commitment_taken(w, v0, d, cs, ss, i);
            }
        },
        DkgEvent::Commitments(j) => {
            if all_in(cs, v0.n) {
                assert(cs.insert(j) =~= cs);
            } else {
                lemma_commitment_taken(v, v0, d, cs, ss, j);
            }
        },
        DkgEvent::Share(j) => {
            if all_in(cs, v0.n) {
                lemma_share_taken(v, v0, d, cs, ss.insert(i), j);
                assert(ss.insert(i).insert(j) =~= ss.insert(j).insert(i));
            } else {
                lemma_share_waits(v.pending, d, i, ss, j);
            }
        },
    }
}

proof fn lemma_run(v0: DkgView, d: Seq<Dealing>, events: Seq<DkgEvent>, seed: u64, k: int)
    requires
        is_new(v0, v0.my_index, v0.n, seed),
        v0.n <= u64::MAX,
        sound(d, v0),
        0 <= k <= events.len(),
        forall|m: int|
            0 <= m < events.len() ==> can_happen(#[trigger] events[m], v0.my_index, v0.n),
    ensures
        progress(
            run(v0, d, events, k),
            v0,
            d,
            committed(v0.my_index, events, k),
            shared(events, k),
        ),
    decreases k,
{
    if k == 0 {
        let none = Set::<u64>::empty();
        assert(!all_in(none, v0.n)) by {
            assert(!none.contains(v0.my_index));
        }
        assert(gathered(d, none) =~= Map::empty());
    } else {
        lemma_run(v0, d, events, seed, k - 1);
        lemma_event(
            run(v0, d, events, k - 1),
            v0,
            d,
            committed(v0.my_index, events, k - 1),
            shared(events, k - 1),
            events[k - 1],
        );
    }
}

/// What was dealt for a participant is sound.
proof fn lemma_sound(v: DkgView, d: Seq<Dealing>, vs: Seq<DkgView>, seed: u64)
    requires
        forall|j: int|
            0 <= j < v.n ==> is_new(#[trigger] vs[j], j as u64, v.n, seed) && DkgManager::dealt(
                vs[j],
                d[j].shares,
                d[j].commits,
            ),
        v.my_index < v.n <= u64::MAX,
        v.t == v.n * 2 / 3 + 1,
        v.g.log() == 1,
    ensures
        sound(d, v),
        forall|j: int|
            0 <= j < v.n ==> (#[trigger] d[j]).commits[0].log() == dkg::contribution(seed)(j),
{
    broadcast use field::lemma_scalar_range;

    assert forall|j: int| 0 <= j < v.n implies (#[trigger] d[j]).commits.len() == v.t && ({
        let share = d[j].shares[v.my_index as int];
        share.index == v.my_index + 1 && elgamal::share_matches(share, d[j].commits, v.g)
    }) && d[j].commits[0].log() == dkg::contribution(seed)(j) by {
        let w = vs[j];
        assert(is_new(w, j as u64, v.n, seed));
        let (coeffs, secret): (Seq<Scalar>, Scalar) = choose|coeffs: Seq<Scalar>, secret: Scalar|
            secret@ == dkg::seeded_scalar(dkg::seed_of(w.seed.wrapping_add(w.my_index)), 0)
                && #[trigger] elgamal::drawn_coeffs(
                coeffs,
                secret,
                w.t as int,
                dkg::seed_of(w.seed.wrapping_add(w.my_index)),
                1,
            ) && elgamal::deals(d[j].shares, coeffs, w.n as int) && elgamal::commits_to(
                d[j].commits,
                coeffs,
                w.g,
            );
        elgamal::law_dealt_share_is_accepted(
            d[j].shares,
            coeffs,
            d[j].commits,
            w.g,
            w.n as int,
            v.my_index as int,
        );
        assert(d[j].commits[0].log() == (w.g.log() * coeffs[0]@) % field::scalar_order());
        assert(1 * secret@ == secret@);
        modular::lemma_small(secret@, field::scalar_order());
    }
}

/// The share of the joint key that a participant ends with, as a share at the number
/// after its index.
pub open spec fn is_key_share(share: Share, v: DkgView) -> bool {
    &&& share.index == v.my_index + 1
    &&& v.keys matches Some(k) && share.value@ == k.1
}

/// Shares are the key shares of different participants that have seen everything, as
/// many as the threshold.
pub open spec fn are_key_shares(
    vs: Seq<DkgView>,
    d: Seq<Dealing>,
    events: Seq<Seq<DkgEvent>>,
    n: nat,
    who: Seq<int>,
    subset: Seq<Share>,
) -> bool {
    &&& who.len() == subset.len() >= n * 2 / 3 + 1
    &&& forall|a: int, b: int| 0 <= a < b < who.len() ==> who[a] != who[b]
    &&& forall|a: int|
        0 <= a < who.len() ==> 0 <= (#[trigger] who[a]) < n && received_all(
            who[a] as u64,
            n,
            events[who[a]],
        ) && is_key_share(
            subset[a],
            run(vs[who[a]], d, events[who[a]], events[who[a]].len() as int),
        )
}

/// The key generation. Let all `n` participants of a committee be new, with the same
/// seed, let `d` be what each deals when it starts, and let each see its own start, the
/// commitments of the others and its shares from them, in any order and any number of
/// times. A participant is complete exactly where it has seen all of them, and has no
/// keys before. Those that are complete have the same joint public key, which is the
/// one that `run_dkg_simulation_for_data_generator` gives, and the key shares of any of
/// them, as many as the threshold, give back, by `reconstruct_secret`, the secret of
/// that key.
pub proof fn law_key_generation(
    vs: Seq<DkgView>,
    d: Seq<Dealing>,
    events: Seq<Seq<DkgEvent>>,
    n: nat,
    seed: u64,
    simulated: Point,
)
    requires
        0 < n <= u64::MAX,
        forall|i: int|
            0 <= i < n ==> is_new(#[trigger] vs[i], i as u64, n, seed) && DkgManager::dealt(
                vs[i],
                d[i].shares,
                d[i].commits,
            ),
        forall|i: int, m: int|
            0 <= i < n && 0 <= m < events[i].len() ==> can_happen(
                #[trigger] events[i][m],
                i as u64,
                n,
            ),
        simulated.log() == modular::sum(n, dkg::contribution(seed)) % field::scalar_order(),
    ensures
        forall|i: int|
            0 <= i < n ==> {
                let end = #[trigger] run(vs[i], d, events[i], events[i].len() as int);
                &&& end.phase is Complete <==> received_all(i as u64, n, events[i])
                &&& end.keys is Some <==> end.phase is Complete
                &&& end.phase is Complete ==> end.keys.unwrap().0 == simulated.log()
            },
        forall|who: Seq<int>, subset: Seq<Share>, secret: Scalar|
            #![trigger are_key_shares(vs, d, events, n, who, subset), secret@]
            are_key_shares(vs, d, events, n, who, subset) && elgamal::is_reconstruction(
                subset,
                secret@,
            ) ==> (vs[0].g.log() * secret@) % field::scalar_order() == simulated.log(),
{
    broadcast use field::lemma_scalar_range;

    let o = field::scalar_order();
    let t = n * 2 / 3 + 1;
    let full = Set::new(|j: u64| j < n);
    lemma_full_size(n);
    let commits = gathered(d, full);
    let joint = joint_polynomial(commits, t, n);
    assert forall|i: u64| i < n implies #[trigger] commits.dom().contains(i) && commits[i].len()
        == t by {
        let v = vs[i as int];
        assert(is_new(v, i, n, seed));
        lemma_sound(v, d, vs, seed);
        assert(d[i as int].commits.len() == v.t);
    }
    let f = key_term(commits);
    let h = dkg::contribution(seed);
    assert forall|j: int| 0 <= j < n implies #[trigger] f(j) == h(j) by {
        assert(is_new(vs[j], j as u64, n, seed));
        lemma_sound(vs[j], d, vs, seed);
        assert(commits.dom().contains(j as u64));
        assert(d[j].commits[0].log() == h(j));
    }
    modular::lemma_sum_ext(n, f, h);
    assert forall|i: int| 0 <= i < n implies {
        let end = #[trigger] run(vs[i], d, events[i], events[i].len() as int);
        &&& end.phase is Complete <==> received_all(i as u64, n, events[i])
        &&& end.keys is Some <==> end.phase is Complete
        &&& end.phase is Complete ==> end.keys.unwrap().0 == simulated.log()
        &&& end.phase is Complete ==> end.keys.unwrap().1 == modular::poly(joint, i + 1) % o
        &&& end.my_index == i
    } by {
        let v = vs[i];
        let es = events[i];
        assert(is_new(v, i as u64, n, seed));
        lemma_sound(v, d, vs, seed);
        lemma_run(v, d, es, seed, es.len() as int);
        let end = run(v, d, es, es.len() as int);
        let cs = committed(i as u64, es, es.len() as int);
        let hs = shared(es, es.len() as int).insert(i as u64);
        if received_all(i as u64, n, es) {
            assert(cs =~= full);
            assert(hs =~= full);
            let shares = held(d, i as u64, full);
            assert forall|j: u64| j < n implies #[trigger] shares.dom().contains(j) && acceptable(
                v,
                commits,
                j,
                shares[j],
            ) by {
                assert(commits.dom().contains(j));
                assert(d[j as int].commits.len() == t);
            }
            law_key_shares_share_the_joint_key(v, commits, shares);
        }
    }
    let b = |i: int| elgamal::logs(commits[i as u64])[0];
    assert forall|i: int| 0 <= i < n implies #[trigger] f(i) == b(i) by {
        assert(commits.dom().contains(i as u64));
    }
    modular::lemma_sum_ext(n, f, b);
    assert(is_new(vs[0], 0, n, seed));
    assert forall|who: Seq<int>, subset: Seq<Share>, secret: Scalar|
        #![trigger are_key_shares(vs, d, events, n, who, subset), secret@]
        are_key_shares(vs, d, events, n, who, subset) && elgamal::is_reconstruction(
            subset,
            secret@,
        ) implies (vs[0].g.log() * secret@) % o == simulated.log() by {
        assert forall|a: int| 0 <= a < subset.len() implies modular::eqm(
            (#[trigger] subset[a]).value@,
            modular::poly(joint, subset[a].index as int),
            o,
        ) by {
            let i = who[a];
            let end = run(vs[i], d, events[i], events[i].len() as int);
            assert(end.phase is Complete);
            modular::lemma_eqm_mod(modular::poly(joint, i + 1), o);
        }
        let xs = elgamal::share_nodes(subset);
        assert forall|a: int, b: int| 0 <= a < b < xs.len() implies xs[a] != xs[b] by {
            let (i, j) = (who[a], who[b]);
            let end_i = run(vs[i], d, events[i], events[i].len() as int);
            let end_j = run(vs[j], d, events[j], events[j].len() as int);
            assert(end_i.my_index == i && end_j.my_index == j);
            assert(xs[a] == i + 1 && xs[b] == j + 1);
        }
        assert(elgamal::on_polynomial(subset, joint));
        assert(secret@ == joint[0] % o);
        assert(1 * secret@ == secret@);
        modular::lemma_small(secret@, o);
    }
}

/// A participant that is complete stays so, with its keys, whatever arrives.
pub proof fn law_keys_are_permanent(
    v: DkgView,
    sender: u64,
    share: Share,
    commits: Seq<Point>,
    bytes: Seq<u8>,
)
    requires
        v.phase is Complete || v.phase is Tally,
    ensures
        share_step(v, sender, share) == v,
        commitment_step(v, sender, commits) == v,
        partial_step(v, sender, bytes).keys == v.keys,
{
}

/// The commitments of some participant are too short for the keys to be made.
#[derive(Clone, Copy, Debug, PartialEq, Eq, Structural)]
pub struct ShortCommitments;

/// Shares are awaited only where the commitments are complete.
pub open spec fn shares_tame(v: DkgView) -> bool {
    v.phase matches DkgPhase::Shares(c, s) ==> commitments_complete(c, v.t, v.n)
}

/// A commitment that is the last one completes the commitments, and the own share
/// is there.
pub open spec fn commitment_tame(v: DkgView, sender: u64, commits: Seq<Point>) -> bool {
    commitment_completes(v, sender, commits) ==> {
        &&& v.my_index < v.shares_to_send.len()
        &&& commitments_complete(
            received_commitments(v).unwrap().insert(sender, commits),
            v.t,
            v.n,
        )
    }
}

/// Where only the own commitments are missing, those of the others are complete.
pub open spec fn start_tame(v: DkgView) -> bool {
    received_commitments(v) matches Some(c) ==> !c.dom().contains(v.my_index) && c.len() + 1 == v.n
        ==> all_long(c, Some(v.my_index), v.t, v.n)
}

proof fn lemma_replay_tame(v: DkgView, list: Seq<(u64, Share)>, k: nat)
    requires
        shares_tame(v),
    ensures
        shares_tame(replay(v, list, k)),
        replay(v, list, k).t == v.t,
        replay(v, list, k).n == v.n,
    decreases k,
{
    if k > 0 {
        lemma_replay_tame(v, list, (k - 1) as nat);
    }
}

proof fn lemma_commitment_tame(v: DkgView, sender: u64, commits: Seq<Point>)
    requires
        commitment_tame(v, sender, commits),
    ensures
        commitment_safe(v, sender, commits),
{
    if commitment_completes(v, sender, commits) {
        let start = own_share_taken(v, sender, commits);
        assert(shares_tame(awaiting_shares(v, sender, commits)));
        assert(shares_tame(start));
        assert forall|k: int| 0 <= k < v.pending.len() implies share_safe(
            #[trigger] replay(start, v.pending, k as nat),
            v.pending[k].0,
            v.pending[k].1,
        ) by {
            lemma_replay_tame(start, v.pending, k as nat);
        }
    }
}

/// The participants below `n`, but for one, have committed to at least `t`
/// coefficients.
pub open spec fn all_long(c: Map<u64, Seq<Point>>, but: Option<u64>, t: nat, n: nat) -> bool {
    forall|i: u64| i < n && but != Some(i) ==> #[trigger] is_long(c, i, t)
}

/// A participant has committed to at least `t` coefficients.
pub open spec fn is_long(c: Map<u64, Seq<Point>>, i: u64, t: nat) -> bool {
    c.dom().contains(i) && c[i].len() >= t
}

/// Whether the participants below `n`, but for one, have committed to at least
/// `t` coefficients.
fn long_enough(
    c: &KeyMap<AuthorityIndex, Vec<Point>>,
    but: Option<u64>,
    t: usize,
    n: usize,
) -> (b: bool)
    requires
        c.wf(),
        n <= u64::MAX,
    ensures
        b == all_long(point_lists(c@), but, t as nat, n as nat),
{
    let mut i: u64 = 0;
    while i < n as u64
        invariant
            i <= n <= u64::MAX,
            c.wf(),
            forall|j: u64|
                j < i && but != Some(j) ==> #[trigger] is_long(point_lists(c@), j, t as nat),
        decreases n - i,
    {
        let skipped = match but {
            Some(x) => x == i,
            None => false,
        };
        if !skipped {
            let long = match c.get(&i) {
                Some(list) => list.len() >= t,
                None => false,
            };
            if !long {
                proof {
                    assert(!is_long(point_lists(c@), i, t as nat));
                }
                return false;
            }
        }
        i = i + 1;
    }
    true
}

impl DkgManager {
    /// Takes a share where that cannot go wrong, and else refuses it.
    pub fn accept_share(&mut self, sender_auth: AuthorityIndex, share: Share) -> (r: Result<
        (),
        ShortCommitments,
    >)
        requires
            old(self).wf(),
        ensures
            final(self).wf(),
            r is Ok <==> shares_tame(old(self)@),
            r is Ok ==> final(self)@ == share_step(old(self)@, sender_auth, share),
            r is Err ==> final(self)@ == old(self)@,
    {
        if let DkgState::AwaitingShares(c, _) = &self.state {
            let long = long_enough(c, None, self.t, self.n);
            proof {
                let m = point_lists(c@);
                let t = self.t as nat;
                assert forall|i: u64| i < self.n && long implies #[trigger] m.dom().contains(i)
                    && m[i].len() >= t by {
                    assert(is_long(m, i, t));
                }
                if commitments_complete(m, t, self.n as nat) {
                    assert forall|i: u64| i < self.n implies #[trigger] is_long(m, i, t) by {
                        assert(m.dom().contains(i));
                    }
                }
            }
            if !long {
                return Err(ShortCommitments);
            }
        }
        self.handle_share(sender_auth, share);
        Ok(())
    }

    /// Takes a commitment where that cannot go wrong, and else refuses it.
    pub fn accept_commitment(
        &mut self,
        sender_auth: AuthorityIndex,
        commits: Vec<Point>,
    ) -> (r: Result<Vec<(AuthorityIndex, Share)>, ShortCommitments>)
        requires
            old(self).wf(),
        ensures
            final(self).wf(),
            r is Ok <==> commitment_tame(old(self)@, sender_auth, commits@),
            r is Ok ==> final(self)@ == commitment_step(old(self)@, sender_auth, commits@),
            r matches Ok(sends) ==> sends@ == (if commitment_completes(
                old(self)@,
                sender_auth,
                commits@,
            ) {
                share_sends(
                    old(self)@.shares_to_send,
                    old(self)@.my_index,
                    old(self)@.peers,
                    old(self)@.shares_to_send.len() as int,
                )
            } else {
                Seq::empty()
            }),
            r is Err ==> final(self)@ == old(self)@,
    {
        let ghost before = self@;
        let fits = match &self.state {
            DkgState::Idle => {
                proof {
                    let e = Map::<u64, Seq<Point>>::empty();
                    assert(e.insert(sender_auth, commits@).dom() =~= set![sender_auth]);
                    let c2 = e.insert(sender_auth, commits@);
                    if self.n == 1 {
                        assert(before.my_index == 0);
                        assert(c2.dom().contains(0u64) <==> sender_auth == 0);
                        assert(c2.len() == 1);
                    }
                }
                self.n != 1 || (self.my_shares_to_send.len() > 0 && sender_auth == 0
                    && commits.len() >= self.t)
            },
            DkgState::AwaitingCommitments(c) => {
                let known = c.contains_key(&sender_auth);
                let full = !known && c.len() == self.n - 1;
                proof {
                    keymap::lemma_finite(*c);
                    assert(point_lists(c@).dom() =~= c@.dom());
                    assert(point_lists(c@).insert(sender_auth, commits@).dom() =~= c@.dom().insert(
                        sender_auth,
                    ));
                    assert(commitment_completes(before, sender_auth, commits@) == full);
                }
                if full {
                    let others = long_enough(c, Some(sender_auth), self.t, self.n);
                    proof {
                        let c2 = point_lists(c@).insert(sender_auth, commits@);
                        let done = commitments_complete(c2, self.t as nat, self.n as nat);
                        if done {
                            assert forall|i: u64|
                                i < self.n && Some(sender_auth) != Some(i) implies #[trigger] is_long(
                                point_lists(c@),
                                i,
                                self.t as nat,
                            ) by {
                                assert(c2.dom().contains(i));
                                assert(c2[i] == point_lists(c@)[i]);
                            }
                            if sender_auth < self.n {
                                assert(c2.dom().contains(sender_auth));
                            }
                        }
                        if others && (sender_auth >= self.n || commits@.len() >= self.t) {
                            assert forall|i: u64|
                                i < self.n implies #[trigger] c2.dom().contains(i) && c2[i].len()
                                >= self.t by {
                                if i != sender_auth {
                                    assert(is_long(point_lists(c@), i, self.t as nat));
                                }
                            }
                        }
                    }
                    (self.my_index as usize) < self.my_shares_to_send.len() && others && (sender_auth
                        >= self.n as u64 || commits.len() >= self.t)
                } else {
                    true
                }
            },
            _ => true,
        };
        if !fits {
            return Err(ShortCommitments);
        }
        proof {
            lemma_commitment_tame(before, sender_auth, commits@);
        }
        Ok(self.handle_commitment(sender_auth, commits))
    }

    /// Starts where that cannot go wrong, and else refuses to.
    pub fn begin(&mut self) -> (r: Result<
        Option<(Vec<AuthorityIndex>, Vec<(AuthorityIndex, Share)>)>,
        ShortCommitments,
    >)
        requires
            old(self).wf(),
        ensures
            final(self).wf(),
            r is Ok <==> (Self::may_start(old(self)@) ==> start_tame(old(self)@)),
            r is Err ==> final(self)@ == old(self)@,
            r matches Ok(x) ==> x is Some == Self::may_start(old(self)@),
            r matches Ok(None) ==> final(self)@ == old(self)@,
            r matches Ok(Some(out)) ==> out.0@ == old(self)@.peers && exists|
                shares: Seq<Share>,
                commits: Seq<Point>,
            | #[trigger]
                Self::dealt(old(self)@, shares, commits) && Self::started(
                    old(self)@,
                    final(self)@,
                    shares,
                    commits,
                    out.1@,
                ),
    {
        let ghost before = self@;
        if self.my_commits.len() == 0 {
            if let DkgState::AwaitingCommitments(c) = &self.state {
                let missing = !c.contains_key(&self.my_index) && c.len() == self.n - 1;
                proof {
                    keymap::lemma_finite(*c);
                    assert(point_lists(c@).dom() =~= c@.dom());
                }
                if missing && !long_enough(c, Some(self.my_index), self.t, self.n) {
                    return Err(ShortCommitments);
                }
            }
        }
        proof {
            if Self::may_start(before) {
                assert(start_tame(before));
                assert forall|shares: Seq<Share>, commits: Seq<Point>| #[trigger]
                    Self::dealt(before, shares, commits) implies commitment_safe(
                    Self::with_dealt(before, shares, commits),
                    before.my_index,
                    commits,
                ) by {
                    lemma_start_tame(before, shares, commits);
                }
            }
        }
        Ok(self.start_dkg())
    }
}

proof fn lemma_start_tame(v: DkgView, shares: Seq<Share>, commits: Seq<Point>)
    requires
        dkg_valid(v),
        DkgManager::may_start(v),
        start_tame(v),
        DkgManager::dealt(v, shares, commits),
    ensures
        commitment_safe(DkgManager::with_dealt(v, shares, commits), v.my_index, commits),
{
    let w = DkgManager::with_dealt(v, shares, commits);
    let c = received_commitments(v).unwrap();
    if commitment_completes(w, v.my_index, commits) {
        let c2 = c.insert(v.my_index, commits);
        assert(c.len() + 1 == v.n) by {
            assert(c2.dom() =~= c.dom().insert(v.my_index));
        }
        assert forall|i: u64| i < v.n implies #[trigger] c2.dom().contains(i) && c2[i].len()
            >= v.t by {
            if i != v.my_index {
                assert(is_long(c, i, v.t));
            }
        }
    }
    lemma_commitment_tame(w, v.my_index, commits);
}

/// A share that is not for the participant, whose sender has not committed, or that its
/// sender's commitments do not confirm, changes nothing once shares are awaited.
pub proof fn law_wrong_share_is_dropped(v: DkgView, sender: u64, share: Share)
    requires
        v.phase is Shares,
        share.index != v.my_index + 1 || !v.phase->Shares_0.dom().contains(sender)
            || !elgamal::share_matches(share, v.phase->Shares_0[sender], v.g),
    ensures
        share_step(v, sender, share) == v,
{
}

/// Shares that come before the commitments wait: nothing else changes, and the latest of
/// each sender is kept.
pub proof fn law_early_shares_wait(v: DkgView, sender: u64, share: Share, other: u64)
    requires
        v.phase is Idle || v.phase is Commitments,
        forall|i: int, j: int|
            0 <= i < j < v.pending.len() ==> (#[trigger] v.pending[i]).0 != (
            #[trigger] v.pending[j]).0,
    ensures
        ({
            let w = share_step(v, sender, share);
            &&& w == (DkgView { pending: w.pending, ..v })
            &&& w.pending.contains((sender, share))
            &&& forall|x: (u64, Share)|
                x.0 != sender ==> (#[trigger] w.pending.contains(x) <==> v.pending.contains(x))
            &&& forall|x: (u64, Share)|
                x.0 == sender && #[trigger] w.pending.contains(x) ==> x.1 == share
        }),
{
    let s = v.pending;
    let w = keymap::upsert(s, sender, share);
    if exists|i: int| 0 <= i < s.len() && (#[trigger] s[i]).0 == sender {
        let i = choose|i: int| 0 <= i < s.len() && (#[trigger] s[i]).0 == sender;
        let p = keymap::position(s, sender);
        assert(w[p] == (sender, share));
        assert forall|x: (u64, Share)| x.0 != sender implies (#[trigger] w.contains(x)
            <==> s.contains(x)) by {
            if w.contains(x) {
                let k = choose|k: int| 0 <= k < w.len() && w[k] == x;
                assert(s[k] == x);
            }
            if s.contains(x) {
                let k = choose|k: int| 0 <= k < s.len() && s[k] == x;
                assert(w[k] == x);
            }
        }
        assert forall|x: (u64, Share)| x.0 == sender && #[trigger] w.contains(x) implies x.1
            == share by {
            let k = choose|k: int| 0 <= k < w.len() && w[k] == x;
            if k != p {
                assert(s[k].0 == s[p].0);
            }
        }
    } else {
        assert(w[s.len() as int] == (sender, share));
        assert forall|x: (u64, Share)| x.0 != sender implies (#[trigger] w.contains(x)
            <==> s.contains(x)) by {
            if w.contains(x) {
                let k = choose|k: int| 0 <= k < w.len() && w[k] == x;
                assert(s[k] == x);
            }
            if s.contains(x) {
                let k = choose|k: int| 0 <= k < s.len() && s[k] == x;
                assert(w[k] == x);
            }
        }
        assert forall|x: (u64, Share)| x.0 == sender && #[trigger] w.contains(x) implies x.1
            == share by {
            let k = choose|k: int| 0 <= k < w.len() && w[k] == x;
            if k < s.len() {
                assert(s[k].0 == sender);
            }
        }
    }
}

/// A confirmed share is kept, and completes the keys exactly where it is the first of its
/// sender and there is one of each participant with it. The public key is the sum of the
/// constant commitments, and the key share the sum of the shares.
pub proof fn law_all_shares_make_the_keys(v: DkgView, sender: u64, share: Share)
    requires
        dkg_valid(v),
        v.phase is Shares,
        v.phase->Shares_0.dom().contains(sender),
        share.index == v.my_index + 1,
        elgamal::share_matches(share, v.phase->Shares_0[sender], v.g),
    ensures
        ({
            let (c, s) = (v.phase->Shares_0, v.phase->Shares_1);
            let w = share_step(v, sender, share);
            let all = s.insert(sender, share);
            let last = !s.dom().contains(sender) && s.len() + 1 == v.n;
            &&& last ==> {
                &&& w.phase is Complete
                &&& w.keys == Some(
                    (
                        modular::sum(v.n, |i: int| c[i as u64][0].log()) % field::scalar_order(),
                        modular::sum(v.n, |i: int| all[i as u64].value@) % field::scalar_order(),
                    ),
                )
            }
            &&& !last ==> w.phase == DkgPhase::Shares(c, all) && w.keys == v.keys
        }),
{
    let (c, s) = (v.phase->Shares_0, v.phase->Shares_1);
    let all = s.insert(sender, share);
    modular::lemma_sum_ext(v.n, key_term(c), |i: int| c[i as u64][0].log());
    modular::lemma_sum_ext(v.n, share_term(all), |i: int| all[i as u64].value@);
}

/// While commitments are missing each that arrives is kept under its sender, and the turn
/// to the shares comes with the last one only; later ones change nothing.
pub proof fn law_commitments_gather(v: DkgView, sender: u64, commits: Seq<Point>)
    ensures
        v.phase is Idle && v.n != 1 ==> commitment_step(v, sender, commits) == (DkgView {
            phase: DkgPhase::Commitments(Map::empty().insert(sender, commits)),
            ..v
        }),
        v.phase matches DkgPhase::Commitments(c) ==> (c.dom().contains(sender) || c.dom().insert(
            sender,
        ).len() != v.n) ==> commitment_step(v, sender, commits) == (DkgView {
            phase: DkgPhase::Commitments(c.insert(sender, commits)),
            ..v
        }),
        v.phase is Shares || v.phase is Complete || v.phase is Tally ==> commitment_step(
            v,
            sender,
            commits,
        ) == v,
{
    let none: Map<u64, Seq<Point>> = Map::empty();
    assert(none.insert(sender, commits).dom() =~= Set::empty().insert(sender));
    if let DkgPhase::Commitments(c) = v.phase {
        assert(c.insert(sender, commits).dom() =~= c.dom().insert(sender));
    }
}

/// The threshold is more than two thirds of the participants, and no more than it takes.
pub proof fn law_threshold_is_more_than_two_thirds(v: DkgView)
    requires
        dkg_valid(v),
    ensures
        3 * v.t > 2 * v.n,
        3 * (v.t - 1) <= 2 * v.n,
        v.t <= v.n || v.n < 3,
{
}

/// Partial decryptions are kept once the keys are there, the latest of each sender, and
/// there are enough when a new one makes them as many as the threshold.
pub proof fn law_partial_decryptions_gather(v: DkgView, sender: u64, bytes: Seq<u8>, other: u64)
    requires
        v.phase matches DkgPhase::Tally(p) ==> p.dom().finite(),
    ensures
        ({
            let w = partial_step(v, sender, bytes);
            let before = match v.phase {
                DkgPhase::Tally(p) => p,
                _ => Map::empty(),
            };
            let ready = v.phase is Complete || v.phase is Tally;
            &&& !ready ==> w == v && !partial_suffices(v, sender, bytes)
            &&& ready ==> {
                &&& w.phase is Tally
                &&& w.phase->Tally_0.dom().contains(other) <==> before.dom().contains(other)
                    || other == sender
                &&& w.phase->Tally_0[sender] == bytes
                &&& other != sender && before.dom().contains(other) ==> w.phase->Tally_0[other]
                    == before[other]
                &&& w.keys == v.keys
                &&& partial_suffices(v, sender, bytes) <==> !before.dom().contains(sender)
                    && before.dom().len() + 1 >= v.t
            }
        }),
{
    let before = received_partials(v);
    assert(before.insert(sender, bytes).dom() =~= before.dom().insert(sender));
    assert(before.insert(sender, bytes).len() == before.insert(sender, bytes).dom().len());
}

proof fn lemma_sends(shares: Seq<Share>, my_index: u64, peers: Seq<u64>, k: int, x: (u64, Share))
    requires
        0 <= k <= shares.len(),
    ensures
        share_sends(shares, my_index, peers, k).contains(x) <==> exists|i: int|
            {
                &&& 0 <= i < k
                &&& #[trigger] shares[i] == x.1
                &&& is_sent(shares[i], my_index, peers)
                &&& x.0 == (shares[i].index - 1) as u64
            },
    decreases k,
{
    if k > 0 {
        lemma_sends(shares, my_index, peers, k - 1, x);
        let rest = share_sends(shares, my_index, peers, k - 1);
        let all = share_sends(shares, my_index, peers, k);
        if rest.contains(x) {
            let i = choose|i: int| 0 <= i < rest.len() && rest[i] == x;
            assert(all[i] == x);
        }
        if all.contains(x) && !rest.contains(x) {
            let i = choose|i: int| 0 <= i < all.len() && all[i] == x;
            if i < rest.len() {
                assert(rest[i] == x);
            }
            assert(shares[k - 1] == x.1);
        }
        if exists|i: int|
            {
                &&& 0 <= i < k
                &&& #[trigger] shares[i] == x.1
                &&& is_sent(shares[i], my_index, peers)
                &&& x.0 == (shares[i].index - 1) as u64
            } {
            let i = choose|i: int|
                {
                    &&& 0 <= i < k
                    &&& #[trigger] shares[i] == x.1
                    &&& is_sent(shares[i], my_index, peers)
                    &&& x.0 == (shares[i].index - 1) as u64
                };
            if i == k - 1 {
                assert(all[all.len() - 1] == x);
            } else {
                assert(rest.contains(x));
            }
        }
    }
}

/// Each connected peer other than the participant itself gets its own share, the one that
/// was dealt at the number after its index, and nobody gets another's.
pub proof fn law_each_peer_gets_its_share(
    shares: Seq<Share>,
    my_index: u64,
    peers: Seq<u64>,
    to: u64,
    share: Share,
)
    requires
        shares.len() <= u64::MAX,
        forall|k: int| 0 <= k < shares.len() ==> (#[trigger] shares[k]).index == k + 1,
    ensures
        share_sends(shares, my_index, peers, shares.len() as int).contains((to, share)) <==> {
            &&& to < shares.len()
            &&& share == shares[to as int]
            &&& to != my_index
            &&& peers.contains(to)
        },
{
    lemma_sends(shares, my_index, peers, shares.len() as int, (to, share));
    if to < shares.len() && share == shares[to as int] && to != my_index && peers.contains(to) {
        assert(shares[to as int].index - 1 == to);
        assert(is_sent(shares[to as int], my_index, peers));
    }
}

} // verus!
