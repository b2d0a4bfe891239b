//! The tally: the ballots are added up encrypted, every member decrypts its part
//! of the sums, and the parts together give the counts.
use crate::committee::AuthorityIndex;
use crate::curve;
use crate::curve::Point;
use crate::elgamal;
use crate::elgamal::{combine_shares_threshold, decode_vote, partial_decrypt_share};
use crate::field;
use crate::field::Scalar;
use crate::modular;
use crate::zkp::{VoteTransaction, ZKElgamalCiphertext};
use vstd::prelude::*;

verus! {

/// The most votes for one candidate that are recognized.
pub const MAX_VOTES_PER_CANDIDATE: u64 = 1_000_000;

/// How many candidates the first ballot has; none where there is no first
/// ballot.
pub open spec fn candidates(votes: Seq<Option<VoteTransaction>>) -> nat {
    if votes.len() > 0 && votes[0] is Some {
        votes[0]->0.enc_vote_vec@.len()
    } else {
        0
    }
}

/// A ballot counts: it can be read, and it has as many candidates as the first.
pub open spec fn counts(votes: Seq<Option<VoteTransaction>>, k: int) -> bool {
    votes[k] is Some && votes[k]->0.enc_vote_vec@.len() == candidates(votes)
}

/// What each ballot adds to the first component for a candidate.
pub open spec fn first_part(votes: Seq<Option<VoteTransaction>>, i: int) -> spec_fn(int) -> int {
    |k: int|
        if counts(votes, k) {
            votes[k]->0.enc_vote_vec@[i].c1.log()
        } else {
            0
        }
}

/// What each ballot adds to the second component for a candidate.
pub open spec fn second_part(votes: Seq<Option<VoteTransaction>>, i: int) -> spec_fn(int) -> int {
    |k: int|
        if counts(votes, k) {
            votes[k]->0.enc_vote_vec@[i].c2.log()
        } else {
            0
        }
}

/// A ciphertext is the sum of the first `m` ballots for a candidate.
pub open spec fn is_sum(
    ct: ZKElgamalCiphertext,
    votes: Seq<Option<VoteTransaction>>,
    i: int,
    m: nat,
) -> bool {
    &&& ct.c1.log() == modular::sum(m, first_part(votes, i)) % field::scalar_order()
    &&& ct.c2.log() == modular::sum(m, second_part(votes, i)) % field::scalar_order()
}

fn sum_for_candidate(votes: &Vec<Option<VoteTransaction>>, n: usize, i: usize) -> (r: ZKElgamalCiphertext)
    requires
        n == candidates(votes@),
        i < n,
    ensures
        is_sum(r, votes@, i as int, votes@.len()),
{
    let ghost q = field::scalar_order();
    let ghost f = first_part(votes@, i as int);
    let ghost h = second_part(votes@, i as int);
    let mut c1 = Point::identity();
    let mut c2 = Point::identity();
    proof {
        curve::lemma_log_range(c1);
    }
    let mut k: usize = 0;
    while k < votes.len()
        invariant
            k <= votes@.len(),
            n == candidates(votes@),
            i < n,
            q == field::scalar_order(),
            f == first_part(votes@, i as int),
            h == second_part(votes@, i as int),
            modular::eqm(c1.log(), modular::sum(k as nat, f), q),
            modular::eqm(c2.log(), modular::sum(k as nat, h), q),
        decreases votes@.len() - k,
    {
        proof {
            assert(modular::sum((k + 1) as nat, f) == modular::sum(k as nat, f) + f(k as int));
            assert(modular::sum((k + 1) as nat, h) == modular::sum(k as nat, h) + h(k as int));
        }
        if let Some(v) = &votes[k] {
            if v.enc_vote_vec.len() == n {
                let ct = &v.enc_vote_vec[i];
                proof {
                    let a = ct.c1.log();
                    let b = ct.c2.log();
                    modular::lemma_eqm_add(c1.log(), modular::sum(k as nat, f), a, f(k as int), q);
                    modular::lemma_eqm_add(c2.log(), modular::sum(k as nat, h), b, h(k as int), q);
                    modular::lemma_eqm_mod(c1.log() + a, q);
                    modular::lemma_eqm_mod(c2.log() + b, q);
                }
                c1 = c1.plus(&ct.c1);
                c2 = c2.plus(&ct.c2);
            }
        }
        k = k + 1;
    }
    proof {
        curve::lemma_log_range(c1);
        curve::lemma_log_range(c2);
        modular::lemma_small(c1.log(), q);
        modular::lemma_small(c2.log(), q);
    }
    ZKElgamalCiphertext { c1, c2 }
}

/// Adds up ballots candidate by candidate, `None` where a transaction holds no
/// ballot. The first ballot sets the number of candidates; ballots with another
/// number do not count.
pub fn perform_he_aggregation(votes: &Vec<Option<VoteTransaction>>) -> (r: Vec<ZKElgamalCiphertext>)
    ensures
        r@.len() == candidates(votes@),
        forall|i: int| 0 <= i < r@.len() ==> is_sum(#[trigger] r@[i], votes@, i, votes@.len()),
{
    let n: usize = if votes.len() > 0 {
        match &votes[0] {
            Some(v) => v.enc_vote_vec.len(),
            None => 0,
        }
    } else {
        0
    };
    let mut out: Vec<ZKElgamalCiphertext> = Vec::new();
    let mut i: usize = 0;
    while i < n
        invariant
            i <= n,
            n == candidates(votes@),
            out@.len() == i,
            forall|j: int| 0 <= j < i ==> is_sum(#[trigger] out@[j], votes@, j, votes@.len()),
        decreases n - i,
    {
        out.push(sum_for_candidate(votes, n, i));
        i = i + 1;
    }
    out
}

/// The encodings of the first `k` points, one after the other.
pub open spec fn points_encoding(points: Seq<Point>, k: int) -> Seq<u8>
    decreases k,
{
    if k <= 0 {
        Seq::empty()
    } else {
        points_encoding(points, k - 1) + curve::point_encoding(points[k - 1].coords())
    }
}

/// The encoding of a list of points: its length in eight bytes, and the points.
pub open spec fn list_encoding(points: Seq<Point>) -> Seq<u8> {
    vstd::bytes::spec_u64_to_le_bytes(points.len() as u64) + points_encoding(
        points,
        points.len() as int,
    )
}

/// Writes a list of points.
pub fn encode_points(points: &Vec<Point>) -> (r: Vec<u8>)
    ensures
        r@ == list_encoding(points@),
        r@.len() == 8 + 32 * points@.len(),
        forall|k: int|
            #![trigger points@[k]]
            0 <= k < points@.len() ==> curve::point_decoding(
                r@.subrange(8 + 32 * k, 8 + 32 * k + 32),
            ) == Some(points@[k].coords()),
{
    let mut out = vstd::bytes::u64_to_le_bytes(points.len() as u64);
    proof {
        vstd::bytes::lemma_auto_spec_u64_to_from_le_bytes();
    }
    let ghost head = out@;
    assert(out@ =~= head + points_encoding(points@, 0));
    let mut i: usize = 0;
    while i < points.len()
        invariant
            i <= points@.len(),
            head.len() == 8,
            out@ == head + points_encoding(points@, i as int),
            out@.len() == 8 + 32 * i,
            forall|k: int|
                #![trigger points@[k]]
                0 <= k < i ==> curve::point_decoding(out@.subrange(8 + 32 * k, 8 + 32 * k + 32))
                    == Some(points@[k].coords()),
        decreases points@.len() - i,
    {
        let ghost before = out@;
        let mut bytes = points[i].to_bytes();
        let ghost b = bytes@;
        out.append(&mut bytes);
        proof {
            assert(out@ =~= head + points_encoding(points@, i + 1));
            assert forall|k: int|
                #![trigger points@[k]]
                0 <= k < i + 1 implies curve::point_decoding(
                out@.subrange(8 + 32 * k, 8 + 32 * k + 32),
            ) == Some(points@[k].coords()) by {
                if k < i {
                    assert(out@.subrange(8 + 32 * k, 8 + 32 * k + 32) =~= before.subrange(
                        8 + 32 * k,
                        8 + 32 * k + 32,
                    ));
                } else {
                    assert(out@.subrange(8 + 32 * k, 8 + 32 * k + 32) =~= b);
                }
            }
        }
        i = i + 1;
    }
    out
}

/// Bytes hold a list of `n` points: its length, and as many points, which may be
/// followed by anything.
pub open spec fn encodes_points(bytes: Seq<u8>) -> bool {
    &&& bytes.len() >= 8
    &&& 8 + 32 * list_length(bytes) <= bytes.len()
    &&& forall|k: int|
        0 <= k < list_length(bytes) ==> #[trigger] point_at(bytes, k) is Some
}

/// The length that the first eight bytes stand for.
pub open spec fn list_length(bytes: Seq<u8>) -> int {
    vstd::bytes::spec_u64_from_le_bytes(bytes.take(8)) as int
}

/// What the bytes of the `k`-th point of a list are read as.
pub open spec fn point_at(bytes: Seq<u8>, k: int) -> Option<(int, int)> {
    curve::point_decoding(bytes.subrange(8 + 32 * k, 8 + 32 * k + 32))
}

/// Reads a list of points, where the bytes hold one.
pub fn decode_points(bytes: &Vec<u8>) -> (r: Option<Vec<Point>>)
    ensures
        r is Some == encodes_points(bytes@),
        r matches Some(ps) ==> ps@.len() == list_length(bytes@) && forall|k: int|
            0 <= k < ps@.len() ==> Some((#[trigger] ps@[k]).coords()) == point_at(bytes@, k),
{
    if bytes.len() < 8 {
        return None;
    }
    let all = bytes.as_slice();
    let head = vstd::slice::slice_subrange(all, 0, 8);
    assert(head@ =~= bytes@.take(8));
    let n: u64 = vstd::bytes::u64_from_le_bytes(head);
    if n > (bytes.len() as u64 - 8) / 32 {
        return None;
    }
    let total: usize = bytes.len();
    let mut out: Vec<Point> = Vec::new();
    let mut i: u64 = 0;
    while i < n
        invariant
            i <= n,
            all@ == bytes@,
            bytes@.len() == total,
            n == list_length(bytes@),
            8 + 32 * n <= bytes@.len(),
            out@.len() == i,
            forall|k: int|
                0 <= k < i ==> Some((#[trigger] out@[k]).coords()) == point_at(bytes@, k),
        decreases n - i,
    {
        assert(i < total);
        let at: usize = 8 + 32 * (i as usize);
        let part = vstd::slice::slice_subrange(all, at, at + 32);
        assert(part@ =~= bytes@.subrange(8 + 32 * (i as int), 8 + 32 * (i as int) + 32));
        match Point::from_bytes(part) {
            Some(p) => {
                out.push(p);
            },
            None => {
                assert(point_at(bytes@, i as int) is None);
                return None;
            },
        }
        i = i + 1;
    }
    assert forall|k: int| 0 <= k < list_length(bytes@) implies #[trigger] point_at(
        bytes@,
        k,
    ) is Some by {
        assert(Some(out@[k].coords()) == point_at(bytes@, k));
    }
    Some(out)
}

/// A list of points that was written is read back.
pub proof fn law_points_round_trip(points: Seq<Point>, bytes: Seq<u8>)
    requires
        points.len() <= u64::MAX,
        bytes == list_encoding(points),
        bytes.len() == 8 + 32 * points.len(),
        forall|k: int|
            #![trigger points[k]]
            0 <= k < points.len() ==> curve::point_decoding(
                bytes.subrange(8 + 32 * k, 8 + 32 * k + 32),
            ) == Some(points[k].coords()),
    ensures
        encodes_points(bytes),
        list_length(bytes) == points.len(),
        forall|k: int|
            0 <= k < points.len() ==> #[trigger] point_at(bytes, k) == Some(points[k].coords()),
{
    vstd::bytes::lemma_auto_spec_u64_to_from_le_bytes();
    let head = vstd::bytes::spec_u64_to_le_bytes(points.len() as u64);
    assert(bytes.take(8) =~= head);
    assert forall|k: int| 0 <= k < points.len() implies #[trigger] point_at(bytes, k) == Some(
        points[k].coords(),
    ) by {
        let p = points[k];
    }
}

/// One member's part of the decryption of the sums.
pub fn partial_decryptions(tallies: &Vec<ZKElgamalCiphertext>, share: Scalar) -> (r: Vec<Point>)
    ensures
        r@.len() == tallies@.len(),
        forall|i: int|
            0 <= i < r@.len() ==> (#[trigger] r@[i]).log() == (tallies@[i].c1.log() * share@)
                % field::scalar_order(),
{
    let mut out: Vec<Point> = Vec::new();
    let mut i: usize = 0;
    while i < tallies.len()
        invariant
            i <= tallies@.len(),
            out@.len() == i,
            forall|j: int|
                0 <= j < i ==> (#[trigger] out@[j]).log() == (tallies@[j].c1.log() * share@)
                    % field::scalar_order(),
        decreases tallies@.len() - i,
    {
        out.push(partial_decrypt_share(&tallies[i].c1, share));
        i = i + 1;
    }
    out
}

/// One member's part of the decryption of the sums, as it is sent.
pub fn perform_partial_decryption(tallies: &Vec<ZKElgamalCiphertext>, share: Scalar) -> (r: Vec<u8>)
    ensures
        exists|points: Seq<Point>|
            {
                &&& points.len() == tallies@.len()
                &&& r@ == #[trigger] list_encoding(points)
                &&& forall|i: int|
                    0 <= i < points.len() ==> (#[trigger] points[i]).log() == (
                    tallies@[i].c1.log() * share@) % field::scalar_order()
            },
{
    let points = partial_decryptions(tallies, share);
    encode_points(&points)
}

/// The parts with one point for each of `n` candidates, among the first `k`.
pub open spec fn fitting(
    parts: Seq<(u64, Vec<Point>)>,
    n: nat,
    k: int,
) -> Seq<(u64, Seq<Point>)>
    decreases k,
{
    if k <= 0 {
        Seq::empty()
    } else if parts[k - 1].1@.len() == n {
        fitting(parts, n, k - 1).push((parts[k - 1].0, parts[k - 1].1@))
    } else {
        fitting(parts, n, k - 1)
    }
}

/// The numbers of those who sent parts.
pub open spec fn senders(parts: Seq<(u64, Seq<Point>)>) -> Seq<u64> {
    Seq::new(parts.len(), |k: int| parts[k].0)
}

/// The parts for one candidate.
pub open spec fn parts_for(parts: Seq<(u64, Seq<Point>)>, i: int) -> Seq<(u64, Point)> {
    Seq::new(parts.len(), |k: int| (parts[k].0, parts[k].1[i]))
}

/// A count is what a point stands for, or zero where it stands for no count that
/// is recognized.
pub open spec fn counted_as(msg: int, count: u64) -> bool {
    exists|r: Option<u64>|
        {
            &&& #[trigger] elgamal::decoded(msg, 1, MAX_VOTES_PER_CANDIDATE as int, r)
            &&& count == (match r {
                Some(c) => c,
                None => 0,
            })
        }
}

/// What is left of a sum when the combined parts are taken off.
pub open spec fn decrypted(c2: int, parts: Seq<(u64, Point)>, chosen: Seq<u64>) -> int {
    (c2 - modular::sum(parts.len(), elgamal::combination_term(parts, chosen)))
        % field::scalar_order()
}

/// The counts of the candidates, out of the sums and of the members' parts. Parts
/// of another length than the sums are left out; without parts there are no
/// counts.
pub fn combine_parts(tallies: &Vec<ZKElgamalCiphertext>, parts: &Vec<(u64, Vec<Point>)>) -> (r: Vec<u64>)
    ensures
        counts_from(tallies@, parts@, r@),
{
    let n: usize = tallies.len();
    let mut chosen: Vec<u64> = Vec::new();
    let mut which: Vec<usize> = Vec::new();
    let ghost mut used: Seq<(u64, Seq<Point>)> = Seq::empty();
    let mut k: usize = 0;
    while k < parts.len()
        invariant
            k <= parts@.len(),
            n == tallies@.len(),
            used == fitting(parts@, n as nat, k as int),
            which@.len() == used.len(),
            chosen@ == senders(used),
            forall|j: int|
                0 <= j < which@.len() ==> (#[trigger] which@[j]) < k && parts@[which@[j] as int].1@.len()
                    == n && used[j] == (
                    parts@[which@[j] as int].0,
                    parts@[which@[j] as int].1@,
                ),
        decreases parts@.len() - k,
    {
        if parts[k].1.len() == n {
            chosen.push(parts[k].0);
            which.push(k);
            proof {
                used = used.push((parts@[k as int].0, parts@[k as int].1@));
                assert(chosen@ =~= senders(used));
            }
        }
        k = k + 1;
    }
    let mut out: Vec<u64> = Vec::new();
    if which.len() == 0 {
        return out;
    }
    let g = Point::generator();
    let mut i: usize = 0;
    while i < n
        invariant
            i <= n,
            n == tallies@.len(),
            g.log() == 1,
            which@.len() == used.len(),
            used == fitting(parts@, n as nat, parts@.len() as int),
            chosen@ == senders(used),
            forall|j: int|
                0 <= j < which@.len() ==> (#[trigger] which@[j]) < parts@.len()
                    && parts@[which@[j] as int].1@.len() == n && used[j] == (
                    parts@[which@[j] as int].0,
                    parts@[which@[j] as int].1@,
                ),
            out@.len() == i,
            forall|m: int|
                0 <= m < i ==> counted_as(
                    decrypted(tallies@[m].c2.log(), parts_for(used, m), senders(used)),
                    #[trigger] out@[m],
                ),
            forall|m: int, c: Seq<int>|
                0 <= m < i && #[trigger] shared_out(used, m, tallies@[m].c1.log(), c) ==> counted_as(
                    (tallies@[m].c2.log() - tallies@[m].c1.log() * c[0]) % field::scalar_order(),
                    out@[m],
                ),
        decreases n - i,
    {
        let mut mine: Vec<(u64, Point)> = Vec::new();
        let mut j: usize = 0;
        while j < which.len()
            invariant
                j <= which@.len(),
                i < n,
                which@.len() == used.len(),
                forall|j: int|
                    0 <= j < which@.len() ==> (#[trigger] which@[j]) < parts@.len()
                        && parts@[which@[j] as int].1@.len() == n && used[j] == (
                        parts@[which@[j] as int].0,
                        parts@[which@[j] as int].1@,
                    ),
                mine@.len() == j,
                forall|m: int|
                    0 <= m < j ==> #[trigger] mine@[m] == (used[m].0, used[m].1[i as int]),
            decreases which@.len() - j,
        {
            let w: usize = which[j];
            mine.push((parts[w].0, parts[w].1[i]));
            j = j + 1;
        }
        assert(mine@ =~= parts_for(used, i as int));
        let point = combine_shares_threshold(&tallies[i].c2, mine.as_slice(), chosen.as_slice());
        let found = decode_vote(&point, &g, MAX_VOTES_PER_CANDIDATE);
        assert(elgamal::decoded(point.log(), 1, MAX_VOTES_PER_CANDIDATE as int, found));
        let count: u64 = match found {
            Some(c) => c,
            None => 0,
        };
        assert(counted_as(point.log(), count));
        let ghost before = out@;
        out.push(count);
        proof {
            assert forall|m: int, c: Seq<int>|
                0 <= m < i + 1 && #[trigger] shared_out(used, m, tallies@[m].c1.log(), c) implies counted_as(
                (tallies@[m].c2.log() - tallies@[m].c1.log() * c[0]) % field::scalar_order(),
                out@[m],
            ) by {
                if m < i {
                    assert(out@[m] == before[m]);
                } else {
                    assert(elgamal::partial_decryptions(
                        mine@,
                        chosen@,
                        tallies@[m].c1.log(),
                        c,
                    ));
                }
            }
        }
        i = i + 1;
    }
    out
}

/// The counts of the candidates, out of the sums and of what the members sent. The
/// share of a member is dealt at the number after its index, and its part is taken
/// at that number. `None` where something that was sent is no list of points.
pub fn perform_full_decryption(
    tallies: &Vec<ZKElgamalCiphertext>,
    all_shares: &Vec<(AuthorityIndex, Vec<u8>)>,
) -> (r: Option<Vec<u64>>)
    requires
        forall|k: int| 0 <= k < all_shares@.len() ==> (#[trigger] all_shares@[k]).0 < u64::MAX,
    ensures
        r is Some == (tallies@.len() == 0 || forall|k: int|
            0 <= k < all_shares@.len() ==> encodes_points((#[trigger] all_shares@[k]).1@)),
        tallies@.len() == 0 ==> r is Some && r->0@.len() == 0,
        r is Some && tallies@.len() > 0 ==> exists|parts: Seq<(u64, Vec<Point>)>|
            {
                &&& #[trigger] read_as(all_shares@, parts)
                &&& counts_from(tallies@, parts, r->0@)
            },
{
    if tallies.len() == 0 {
        return Some(Vec::new());
    }
    let mut parts: Vec<(u64, Vec<Point>)> = Vec::new();
    let mut k: usize = 0;
    while k < all_shares.len()
        invariant
            k <= all_shares@.len(),
            tallies@.len() > 0,
            forall|k: int| 0 <= k < all_shares@.len() ==> (#[trigger] all_shares@[k]).0 < u64::MAX,
            parts@.len() == k,
            forall|j: int| 0 <= j < k ==> encodes_points((#[trigger] all_shares@[j]).1@),
            forall|j: int|
                0 <= j < k ==> is_read_as(all_shares@[j].1@, (#[trigger] parts@[j]).1@)
                    && parts@[j].0 == all_shares@[j].0 + 1,
        decreases all_shares@.len() - k,
    {
        match decode_points(&all_shares[k].1) {
            Some(points) => {
                assert(all_shares@[k as int].0 < u64::MAX);
                parts.push((all_shares[k].0 + 1, points));
            },
            None => {
                assert(!encodes_points(all_shares@[k as int].1@));
                return None;
            },
        }
        k = k + 1;
    }
    assert(read_as(all_shares@, parts@));
    Some(combine_parts(tallies, &parts))
}

/// Bytes are read as a list of points.
pub open spec fn is_read_as(bytes: Seq<u8>, points: Seq<Point>) -> bool {
    &&& points.len() == list_length(bytes)
    &&& forall|k: int|
        0 <= k < points.len() ==> Some((#[trigger] points[k]).coords()) == point_at(bytes, k)
}

/// What members sent is read as these parts, each under the number after its
/// member's index.
pub open spec fn read_as(
    all_shares: Seq<(AuthorityIndex, Vec<u8>)>,
    parts: Seq<(u64, Vec<Point>)>,
) -> bool {
    &&& parts.len() == all_shares.len()
    &&& forall|j: int|
        0 <= j < parts.len() ==> is_read_as(all_shares[j].1@, (#[trigger] parts[j]).1@)
            && parts[j].0 == all_shares[j].0 + 1
}

/// These are the counts out of the sums and the parts.
pub open spec fn counts_from(
    tallies: Seq<ZKElgamalCiphertext>,
    parts: Seq<(u64, Vec<Point>)>,
    result: Seq<u64>,
) -> bool {
    let used = fitting(parts, tallies.len(), parts.len() as int);
    if used.len() == 0 {
        result.len() == 0
    } else {
        &&& result.len() == tallies.len()
        &&& forall|i: int|
            0 <= i < result.len() ==> counted_as(
                decrypted(tallies[i].c2.log(), parts_for(used, i), senders(used)),
                #[trigger] result[i],
            )
        &&& forall|i: int, c: Seq<int>|
            0 <= i < result.len() && #[trigger] shared_out(used, i, tallies[i].c1.log(), c)
                ==> counted_as(
                (tallies[i].c2.log() - tallies[i].c1.log() * c[0]) % field::scalar_order(),
                result[i],
            )
    }
}

/// The parts for a candidate are those of `c1` under shares of the polynomial
/// with coefficients `c`, each dealt at its sender's number; the senders are
/// different, and no fewer than the coefficients.
pub open spec fn shared_out(
    used: Seq<(u64, Seq<Point>)>,
    i: int,
    c1: int,
    c: Seq<int>,
) -> bool {
    &&& elgamal::partial_decryptions(parts_for(used, i), senders(used), c1, c)
    &&& 0 < c.len() <= used.len()
    &&& modular::distinct(elgamal::nodes(senders(used)))
}

/// The ballots that count, as pairs of components for one candidate.
pub open spec fn counted_pairs(
    votes: Seq<Option<VoteTransaction>>,
    i: int,
    k: int,
) -> Seq<(Point, Point)>
    decreases k,
{
    if k <= 0 {
        Seq::empty()
    } else if counts(votes, k - 1) {
        let ct = votes[k - 1]->0.enc_vote_vec@[i];
        counted_pairs(votes, i, k - 1).push((ct.c1, ct.c2))
    } else {
        counted_pairs(votes, i, k - 1)
    }
}

proof fn lemma_sum_push(cts: Seq<(Point, Point)>, ct: (Point, Point))
    ensures
        modular::sum(cts.len() + 1, elgamal::first_log(cts.push(ct))) == modular::sum(
            cts.len(),
            elgamal::first_log(cts),
        ) + ct.0.log(),
        modular::sum(cts.len() + 1, elgamal::second_log(cts.push(ct))) == modular::sum(
            cts.len(),
            elgamal::second_log(cts),
        ) + ct.1.log(),
{
    let f = elgamal::first_log(cts);
    let f2 = elgamal::first_log(cts.push(ct));
    let h = elgamal::second_log(cts);
    let h2 = elgamal::second_log(cts.push(ct));
    assert forall|j: int| 0 <= j < cts.len() implies #[trigger] f(j) == f2(j) by {}
    assert forall|j: int| 0 <= j < cts.len() implies #[trigger] h(j) == h2(j) by {}
    modular::lemma_sum_ext(cts.len(), f, f2);
    modular::lemma_sum_ext(cts.len(), h, h2);
}

proof fn lemma_counted_sums(votes: Seq<Option<VoteTransaction>>, i: int, k: int)
    requires
        0 <= k <= votes.len(),
    ensures
        modular::sum(k as nat, first_part(votes, i)) == modular::sum(
            counted_pairs(votes, i, k).len(),
            elgamal::first_log(counted_pairs(votes, i, k)),
        ),
        modular::sum(k as nat, second_part(votes, i)) == modular::sum(
            counted_pairs(votes, i, k).len(),
            elgamal::second_log(counted_pairs(votes, i, k)),
        ),
    decreases k,
{
    if k > 0 {
        lemma_counted_sums(votes, i, k - 1);
        if counts(votes, k - 1) {
            let ct = votes[k - 1]->0.enc_vote_vec@[i];
            lemma_sum_push(counted_pairs(votes, i, k - 1), (ct.c1, ct.c2));
        }
    }
}

proof fn lemma_all_fit(parts: Seq<(u64, Vec<Point>)>, n: nat, k: int)
    requires
        0 <= k <= parts.len(),
        forall|j: int| 0 <= j < parts.len() ==> (#[trigger] parts[j]).1@.len() == n,
    ensures
        fitting(parts, n, k).len() == k,
        forall|j: int|
            0 <= j < k ==> #[trigger] fitting(parts, n, k)[j] == (parts[j].0, parts[j].1@),
    decreases k,
{
    if k > 0 {
        lemma_all_fit(parts, n, k - 1);
        assert(parts[k - 1].1@.len() == n);
    }
}

/// The part of a member for a candidate is that of `c1` under the member's share of
/// the polynomial with coefficients `c`, which is dealt at the number after its
/// index.
pub open spec fn is_part_of(part: (u64, Vec<Point>), i: int, index: u64, c1: int, c: Seq<int>) -> bool {
    modular::eqm(
        part.1@[i].log(),
        c1 * modular::poly(c, index + 1),
        field::scalar_order(),
    )
}

/// What different members of the key generation send is what the tally counts with:
/// the parts that are read from it are shared out by the joint polynomial, each at
/// its sender's number.
pub proof fn law_members_parts_are_shared_out(
    all_shares: Seq<(AuthorityIndex, Vec<u8>)>,
    parts: Seq<(u64, Vec<Point>)>,
    n: nat,
    i: int,
    c1: int,
    c: Seq<int>,
)
    requires
        read_as(all_shares, parts),
        0 <= i < n,
        0 < c.len() <= all_shares.len(),
        forall|j: int, k: int|
            0 <= j < k < all_shares.len() ==> (#[trigger] all_shares[j]).0 != (
            #[trigger] all_shares[k]).0,
        forall|j: int| 0 <= j < parts.len() ==> (#[trigger] parts[j]).1@.len() == n,
        forall|j: int|
            0 <= j < parts.len() ==> is_part_of(#[trigger] parts[j], i, all_shares[j].0, c1, c),
    ensures
        shared_out(fitting(parts, n, parts.len() as int), i, c1, c),
{
    let used = fitting(parts, n, parts.len() as int);
    lemma_all_fit(parts, n, parts.len() as int);
    let mine = parts_for(used, i);
    let chosen = senders(used);
    assert forall|k: int| 0 <= k < chosen.len() implies (#[trigger] mine[k]).0 == chosen[k]
        && modular::eqm(
        mine[k].1.log(),
        c1 * modular::poly(c, chosen[k] as int),
        field::scalar_order(),
    ) by {
        assert(used[k] == (parts[k].0, parts[k].1@));
        assert(is_part_of(parts[k], i, all_shares[k].0, c1, c));
        assert(parts[k].0 == all_shares[k].0 + 1);
    }
    let xs = elgamal::nodes(chosen);
    assert forall|a: int, b: int| 0 <= a < b < xs.len() implies xs[a] != xs[b] by {
        assert(used[a] == (parts[a].0, parts[a].1@));
        assert(used[b] == (parts[b].0, parts[b].1@));
        assert(parts[a].0 == all_shares[a].0 + 1);
        assert(parts[b].0 == all_shares[b].0 + 1);
        assert(all_shares[a].0 != all_shares[b].0);
    }
}

/// The tally is right. Let the ballots that count encrypt the numbers `cast` for
/// a candidate under a key whose secret is shared out by the polynomial `c`, and
/// let enough different members send their parts, each under the number at which
/// its share was dealt. Then the count is the sum of the numbers, if it is not
/// too large to be recognized.
pub proof fn law_tally_counts_votes(
    votes: Seq<Option<VoteTransaction>>,
    i: int,
    cast: Seq<int>,
    rs: Seq<int>,
    pk: Point,
    g: Point,
    c: Seq<int>,
    tallies: Seq<ZKElgamalCiphertext>,
    parts: Seq<(u64, Vec<Point>)>,
    result: Seq<u64>,
)
    requires
        g.log() == 1,
        0 <= i < tallies.len(),
        is_sum(tallies[i], votes, i, votes.len()),
        elgamal::encrypts(counted_pairs(votes, i, votes.len() as int), cast, rs, pk, g),
        c.len() > 0,
        pk.log() == (g.log() * c[0]) % field::scalar_order(),
        counts_from(tallies, parts, result),
        shared_out(
            fitting(parts, tallies.len(), parts.len() as int),
            i,
            tallies[i].c1.log(),
            c,
        ),
        0 <= modular::sum(cast.len(), |k: int| cast[k]) <= MAX_VOTES_PER_CANDIDATE,
    ensures
        result.len() == tallies.len(),
        result[i] == modular::sum(cast.len(), |k: int| cast[k]),
{
    let q = field::scalar_order();
    let cts = counted_pairs(votes, i, votes.len() as int);
    let x = c[0];
    let total = tallies[i];
    let count = result[i];
    lemma_counted_sums(votes, i, votes.len() as int);
    elgamal::law_tally(cts, cast, rs, pk, g, x, (total.c1, total.c2));
    let s = modular::sum(cast.len(), |k: int| cast[k]);
    let d = total.c2.log() - total.c1.log() * x;
    let msg = d % q;
    assert(modular::eqm(d, s * g.log(), q));
    assert(s * 1 == s);
    modular::lemma_eqm_mod(d, q);
    modular::lemma_small(s, q);
    modular::lemma_eqm_small(msg, s, q);
    assert(counted_as(msg, count));
    let r = choose|r: Option<u64>|
        {
            &&& #[trigger] elgamal::decoded(msg, 1, MAX_VOTES_PER_CANDIDATE as int, r)
            &&& count == (match r {
                Some(v) => v,
                None => 0,
            })
        };
    match r {
        Some(k) => {
            assert(k * 1 == k);
            modular::lemma_small(k as int, q);
        },
        None => {
            assert(msg != (s * 1) % q);
        },
    }
}

/// The positions of the ballots that count, among the first `k`.
spec fn counted_positions(votes: Seq<Option<VoteTransaction>>, k: int) -> Seq<int>
    decreases k,
{
    if k <= 0 {
        Seq::empty()
    } else if counts(votes, k - 1) {
        counted_positions(votes, k - 1).push(k - 1)
    } else {
        counted_positions(votes, k - 1)
    }
}

proof fn lemma_counted_positions(votes: Seq<Option<VoteTransaction>>, i: int, k: int)
    requires
        0 <= k <= votes.len(),
    ensures
        counted_positions(votes, k).len() == counted_pairs(votes, i, k).len(),
        forall|j: int|
            0 <= j < counted_positions(votes, k).len() ==> {
                let at = #[trigger] counted_positions(votes, k)[j];
                &&& 0 <= at < k
                &&& counts(votes, at)
                &&& counted_pairs(votes, i, k)[j] == (
                    votes[at]->0.enc_vote_vec@[i].c1,
                    votes[at]->0.enc_vote_vec@[i].c2,
                )
            },
    decreases k,
{
    if k > 0 {
        lemma_counted_positions(votes, i, k - 1);
    }
}

/// The ballots among the first `k` that can be read, have as many ciphertexts as the
/// first one, and are for a candidate.
pub open spec fn ballots_for(
    votes: Seq<Option<VoteTransaction>>,
    choices: Seq<int>,
    i: int,
    k: int,
) -> Set<int> {
    Set::new(
        |m: int|
            0 <= m < k && (votes[m] matches Some(v) && v.enc_vote_vec@.len()
                == votes[0]->0.enc_vote_vec@.len()) && choices[m] == i,
    )
}

proof fn lemma_ballots_for(
    votes: Seq<Option<VoteTransaction>>,
    choices: Seq<int>,
    i: int,
    k: int,
)
    requires
        0 <= k <= votes.len(),
        votes.len() > 0,
        votes[0] is Some,
    ensures
        ballots_for(votes, choices, i, k).finite(),
        ballots_for(votes, choices, i, k).len() == modular::sum(
            counted_positions(votes, k).len(),
            |j: int|
                if choices[counted_positions(votes, k)[j]] == i {
                    1int
                } else {
                    0
                },
        ),
        ballots_for(votes, choices, i, k).len() <= k,
    decreases k,
{
    let s = ballots_for(votes, choices, i, k);
    let pos = counted_positions(votes, k);
    let f = |j: int|
        if choices[pos[j]] == i {
            1int
        } else {
            0
        };
    if k == 0 {
        assert(s =~= Set::empty());
    } else {
        lemma_ballots_for(votes, choices, i, k - 1);
        let s0 = ballots_for(votes, choices, i, k - 1);
        let pos0 = counted_positions(votes, k - 1);
        let f0 = |j: int|
            if choices[pos0[j]] == i {
                1int
            } else {
                0
            };
        if counts(votes, k - 1) {
            assert forall|j: int| 0 <= j < pos0.len() implies #[trigger] f0(j) == f(j) by {
                assert(pos[j] == pos0[j]);
            }
            modular::lemma_sum_ext(pos0.len(), f0, f);
            assert(pos[pos0.len() as int] == k - 1);
            assert(modular::sum(pos.len(), f) == modular::sum(pos0.len(), f) + f(
                pos0.len() as int,
            ));
            if choices[k - 1] == i {
                assert(s =~= s0.insert(k - 1));
            } else {
                assert(s =~= s0);
            }
        } else {
            assert(s =~= s0);
        }
    }
}

/// A ballot encrypts one vote for its choice, and none for the other candidates.
pub open spec fn encrypts_choice(
    v: VoteTransaction,
    choice: int,
    r: int,
    pk: Point,
    g: Point,
) -> bool {
    forall|i: int|
        0 <= i < v.enc_vote_vec@.len() ==> {
            let ct = #[trigger] v.enc_vote_vec@[i];
            let vote = if i == choice {
                1int
            } else {
                0
            };
            &&& ct.c1.log() == (g.log() * r) % field::scalar_order()
            &&& ct.c2.log() == ((vote * g.log()) % field::scalar_order() + pk.log() * r)
                % field::scalar_order()
        }
}

/// The tally counts all ballots. Let the ballots that can be read, with as many
/// ciphertexts as the first one, encrypt one choice each under a key whose secret is
/// shared out by the polynomial `c`, and let enough different members send their parts
/// of the sums of `perform_he_aggregation`. Then the count that
/// `perform_full_decryption` gives for a candidate is the number of all these ballots,
/// wherever they stand in the list, whose choice it is.
pub proof fn law_every_ballot_is_counted(
    votes: Seq<Option<VoteTransaction>>,
    choices: Seq<int>,
    rs: Seq<int>,
    pk: Point,
    g: Point,
    c: Seq<int>,
    tallies: Seq<ZKElgamalCiphertext>,
    all_shares: Seq<(AuthorityIndex, Vec<u8>)>,
    parts: Seq<(u64, Vec<Point>)>,
    result: Seq<u64>,
    i: int,
)
    requires
        g.log() == 1,
        0 < votes.len() <= 1_000_000,
        votes[0] is Some,
        forall|k: int|
            0 <= k < votes.len() && (#[trigger] votes[k]) is Some && votes[k]->0.enc_vote_vec@.len()
                == votes[0]->0.enc_vote_vec@.len() ==> encrypts_choice(
                votes[k]->0,
                choices[k],
                rs[k],
                pk,
                g,
            ),
        tallies.len() == candidates(votes),
        forall|j: int|
            0 <= j < tallies.len() ==> is_sum(#[trigger] tallies[j], votes, j, votes.len()),
        0 < c.len() <= all_shares.len(),
        pk.log() == (g.log() * c[0]) % field::scalar_order(),
        forall|j: int, k: int|
            0 <= j < k < all_shares.len() ==> (#[trigger] all_shares[j]).0 != (
            #[trigger] all_shares[k]).0,
        read_as(all_shares, parts),
        forall|j: int|
            0 <= j < parts.len() ==> (#[trigger] parts[j]).1@.len() == tallies.len()
                && modular::eqm(
                parts[j].1@[i].log(),
                tallies[i].c1.log() * modular::poly(c, all_shares[j].0 + 1),
                field::scalar_order(),
            ),
        counts_from(tallies, parts, result),
        0 <= i < votes[0]->0.enc_vote_vec@.len(),
    ensures
        result.len() == votes[0]->0.enc_vote_vec@.len(),
        result[i] == Set::new(
            |k: int|
                0 <= k < votes.len() && (votes[k] matches Some(v) && v.enc_vote_vec@.len()
                    == votes[0]->0.enc_vote_vec@.len()) && choices[k] == i,
        ).len(),
{
    let m = votes.len() as int;
    let pairs = counted_pairs(votes, i, m);
    let pos = counted_positions(votes, m);
    lemma_counted_positions(votes, i, m);
    lemma_ballots_for(votes, choices, i, m);
    let cast = Seq::new(
        pos.len(),
        |j: int|
            if choices[pos[j]] == i {
                1int
            } else {
                0
            },
    );
    let rand = Seq::new(pos.len(), |j: int| rs[pos[j]]);
    assert forall|j: int| 0 <= j < pairs.len() implies (#[trigger] pairs[j]).0.log() == (g.log()
        * rand[j]) % field::scalar_order() && pairs[j].1.log() == ((cast[j] * g.log())
        % field::scalar_order() + pk.log() * rand[j]) % field::scalar_order() by {
        let at = pos[j];
        let v = votes[at]->0;
        assert(counts(votes, at));
        assert(encrypts_choice(v, choices[at], rs[at], pk, g));
        let ct = v.enc_vote_vec@[i];
        assert(pairs[j] == (ct.c1, ct.c2));
    }
    assert(elgamal::encrypts(pairs, cast, rand, pk, g));
    let f = |j: int|
        if choices[pos[j]] == i {
            1int
        } else {
            0
        };
    let h = |j: int| cast[j];
    assert forall|j: int| 0 <= j < pos.len() implies #[trigger] f(j) == h(j) by {}
    modular::lemma_sum_ext(pos.len(), f, h);
    assert(ballots_for(votes, choices, i, m) =~= Set::new(
        |k: int|
            0 <= k < votes.len() && (votes[k] matches Some(v) && v.enc_vote_vec@.len()
                == votes[0]->0.enc_vote_vec@.len()) && choices[k] == i,
    ));
    assert forall|j: int| 0 <= j < parts.len() implies is_part_of(
        #[trigger] parts[j],
        i,
        all_shares[j].0,
        tallies[i].c1.log(),
        c,
    ) by {}
    law_members_parts_are_shared_out(
        all_shares,
        parts,
        tallies.len(),
        i,
        tallies[i].c1.log(),
        c,
    );
    assert(is_sum(tallies[i], votes, i, votes.len()));
    law_tally_counts_votes(votes, i, cast, rand, pk, g, c, tallies, parts, result);
}

/// Adding up ballots goes on from what was added up: a further ballot that can be read,
/// with as many ciphertexts as the first one, adds its ciphertexts to the sums; any
/// other leaves them as they are.
pub proof fn law_a_further_ballot_is_added(
    votes: Seq<Option<VoteTransaction>>,
    next: Option<VoteTransaction>,
    i: int,
    a: ZKElgamalCiphertext,
    b: ZKElgamalCiphertext,
)
    requires
        votes.len() > 0,
        votes[0] is Some,
        0 <= i < votes[0]->0.enc_vote_vec@.len(),
        is_sum(a, votes, i, votes.len()),
        is_sum(b, votes.push(next), i, votes.len() + 1),
    ensures
        (next matches Some(v) && v.enc_vote_vec@.len() == votes[0]->0.enc_vote_vec@.len()) ==> {
            &&& b.c1.log() == (a.c1.log() + next->0.enc_vote_vec@[i].c1.log())
                % field::scalar_order()
            &&& b.c2.log() == (a.c2.log() + next->0.enc_vote_vec@[i].c2.log())
                % field::scalar_order()
        },
        !(next matches Some(v) && v.enc_vote_vec@.len() == votes[0]->0.enc_vote_vec@.len()) ==> b.c1.log()
            == a.c1.log() && b.c2.log() == a.c2.log(),
        candidates(votes) == votes[0]->0.enc_vote_vec@.len(),
{
    let q = field::scalar_order();
    let all = votes.push(next);
    let m = votes.len();
    let (f, f2) = (first_part(votes, i), first_part(all, i));
    let (h, h2) = (second_part(votes, i), second_part(all, i));
    assert(all[0] == votes[0]);
    assert forall|k: int| 0 <= k < m implies #[trigger] f(k) == f2(k) by {
        assert(all[k] == votes[k]);
    }
    assert forall|k: int| 0 <= k < m implies #[trigger] h(k) == h2(k) by {
        assert(all[k] == votes[k]);
    }
    modular::lemma_sum_ext(m, f, f2);
    modular::lemma_sum_ext(m, h, h2);
    assert(all[m as int] == next);
    let (s, t) = (modular::sum(m, f), modular::sum(m, h));
    modular::lemma_eqm_mod(s, q);
    modular::lemma_eqm_mod(t, q);
    modular::lemma_eqm_add(a.c1.log(), s, f2(m as int), f2(m as int), q);
    modular::lemma_eqm_add(a.c2.log(), t, h2(m as int), h2(m as int), q);
}

/// The first ballot says how many candidates there are; where it cannot be read, or there
/// is none, there is nothing to count.
pub proof fn law_first_ballot_sets_the_candidates(
    votes: Seq<Option<VoteTransaction>>,
    more: Seq<Option<VoteTransaction>>,
)
    ensures
        votes.len() > 0 && votes[0] is Some ==> candidates(votes)
            == votes[0]->0.enc_vote_vec@.len(),
        votes.len() == 0 || votes[0] is None ==> candidates(votes) == 0,
        votes.len() > 0 ==> candidates(votes + more) == candidates(votes),
{
    if votes.len() > 0 {
        assert((votes + more)[0] == votes[0]);
    }
}

proof fn lemma_fitting_split(
    a: Seq<(u64, Vec<Point>)>,
    b: Seq<(u64, Vec<Point>)>,
    n: nat,
    k: int,
)
    requires
        0 <= k <= a.len() + b.len(),
    ensures
        k <= a.len() ==> fitting(a + b, n, k) == fitting(a, n, k),
        k >= a.len() ==> fitting(a + b, n, k) == fitting(a, n, a.len() as int) + fitting(
            b,
            n,
            k - a.len(),
        ),
    decreases k,
{
    if k > 0 {
        lemma_fitting_split(a, b, n, k - 1);
        if k <= a.len() {
            assert((a + b)[k - 1] == a[k - 1]);
        } else {
            let p = b[k - 1 - a.len()];
            assert((a + b)[k - 1] == p);
            let x = fitting(a, n, a.len() as int);
            let y = fitting(b, n, k - 1 - a.len());
            assert((x + y).push((p.0, p.1@)) =~= x + y.push((p.0, p.1@)));
        }
    }
    if k == a.len() {
        assert(fitting(a, n, k) + fitting(b, n, 0) =~= fitting(a, n, k));
    }
}

/// The parts that count are those with a point for each candidate, in their order and
/// wherever they stand, and no others.
pub proof fn law_fitting_parts_count(
    a: Seq<(u64, Vec<Point>)>,
    b: Seq<(u64, Vec<Point>)>,
    part: (u64, Vec<Point>),
    n: nat,
)
    ensures
        fitting(a + b, n, (a + b).len() as int) == fitting(a, n, a.len() as int) + fitting(
            b,
            n,
            b.len() as int,
        ),
        part.1@.len() == n ==> fitting(seq![part], n, 1) =~= seq![(part.0, part.1@)],
        part.1@.len() != n ==> fitting(seq![part], n, 1).len() == 0,
{
    lemma_fitting_split(a, b, n, (a + b).len() as int);
    let one = seq![part];
    assert(fitting(one, n, 0).len() == 0);
    assert(one[0] == part);
    assert(fitting(one, n, 1) == if one[0].1@.len() == n {
        fitting(one, n, 0).push((one[0].0, one[0].1@))
    } else {
        fitting(one, n, 0)
    });
}

/// A count of up to a million is recognised as it is, and a larger one, short of the order
/// of the group, as none.
pub proof fn law_counts_up_to_a_million_are_recognised(votes: int, count: u64)
    requires
        0 <= votes < field::scalar_order(),
        counted_as(votes, count),
    ensures
        votes <= 1_000_000 ==> count == votes,
        votes > 1_000_000 ==> count == 0,
{
    let q = field::scalar_order();
    let r = choose|r: Option<u64>|
        {
            &&& #[trigger] elgamal::decoded(votes, 1, MAX_VOTES_PER_CANDIDATE as int, r)
            &&& count == (match r {
                Some(v) => v,
                None => 0,
            })
        };
    modular::lemma_small(votes, q);
    assert(votes * 1 == votes);
    match r {
        Some(k) => {
            assert(k * 1 == k);
            if k <= 1_000_000 {
                modular::lemma_small(k as int, q);
            }
        },
        None => {
            if votes <= 1_000_000 {
                assert(votes != (votes * 1) % q);
            }
        },
    }
}

/// Bytes are read as points exactly where they hold a length, as many pieces of thirty-two
/// bytes, and each of these is a point; and then the points are those pieces in their order.
pub proof fn law_points_are_read_piece_by_piece(bytes: Seq<u8>, points: Seq<Point>)
    ensures
        ({
            let n = vstd::bytes::spec_u64_from_le_bytes(bytes.take(8)) as int;
            &&& encodes_points(bytes) <==> {
                &&& bytes.len() >= 8
                &&& bytes.len() >= 8 + 32 * n
                &&& forall|k: int|
                    0 <= k < n ==> curve::point_decoding(
                        #[trigger] bytes.subrange(8 + 32 * k, 40 + 32 * k),
                    ) is Some
            }
            &&& is_read_as(bytes, points) <==> {
                &&& points.len() == n
                &&& forall|k: int|
                    0 <= k < n ==> curve::point_decoding(bytes.subrange(8 + 32 * k, 40 + 32 * k))
                        == Some((#[trigger] points[k]).coords())
            }
        }),
{
    let n = vstd::bytes::spec_u64_from_le_bytes(bytes.take(8)) as int;
    assert forall|k: int| 0 <= k < n implies #[trigger] point_at(bytes, k)
        == curve::point_decoding(bytes.subrange(8 + 32 * k, 40 + 32 * k)) by {}
    if encodes_points(bytes) {
        assert forall|k: int| 0 <= k < n implies curve::point_decoding(
            #[trigger] bytes.subrange(8 + 32 * k, 40 + 32 * k),
        ) is Some by {
            assert(point_at(bytes, k) is Some);
        }
    }
    if is_read_as(bytes, points) {
        assert forall|k: int| 0 <= k < n implies curve::point_decoding(
            bytes.subrange(8 + 32 * k, 40 + 32 * k),
        ) == Some((#[trigger] points[k]).coords()) by {
            assert(Some(points[k].coords()) == point_at(bytes, k));
        }
    }
    if forall|k: int|
        0 <= k < n ==> curve::point_decoding(
            #[trigger] bytes.subrange(8 + 32 * k, 40 + 32 * k),
        ) is Some {
        assert forall|k: int| 0 <= k < n implies #[trigger] point_at(bytes, k) is Some by {
            let piece = bytes.subrange(8 + 32 * k, 40 + 32 * k);
            assert(curve::point_decoding(piece) is Some);
        }
    }
}

/// Where some part has a point for each candidate there is a count for each of them, and it
/// is what the sum leaves when the combined parts are taken off; and without such a part
/// there are no counts.
pub proof fn law_each_candidate_gets_its_count(
    tallies: Seq<ZKElgamalCiphertext>,
    parts: Seq<(u64, Vec<Point>)>,
    result: Seq<u64>,
    i: int,
)
    requires
        counts_from(tallies, parts, result),
        0 <= i < tallies.len(),
    ensures
        ({
            let used = fitting(parts, tallies.len(), parts.len() as int);
            &&& used.len() == 0 ==> result.len() == 0
            &&& used.len() > 0 ==> {
                &&& result.len() == tallies.len()
                &&& counted_as(
                    (tallies[i].c2.log() - modular::sum(
                        used.len(),
                        elgamal::combination_term(parts_for(used, i), senders(used)),
                    )) % field::scalar_order(),
                    result[i],
                )
            }
        }),
{
}

} // verus!
