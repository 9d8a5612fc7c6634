//! Magnet links: the info hash, name and tracker that a magnet link names,
//! and what a client learns about the torrent afterwards.

use vstd::prelude::*;
use vstd::string::StrSliceExecFns;
use crate::messages::PeerHandshake;
use crate::torrent::{TorrentInfo, TorrentInfoView};
use crate::tracker::{pairs_text, Tracker};
use crate::peer::Peer;
use crate::types::{hex_bytes, HashId, TorrentError};
use crate::wire::{array_of, lemma_array_of};

verus! {

/// The query of a URL as name and value pairs, percent-decoded, in order;
/// `None` where the text is not a URL.
pub uninterp spec fn spec_url_query_pairs(text: Seq<char>) -> Option<Seq<(Seq<char>, Seq<char>)>>;

/// The query pairs of a URL (`reqwest::Url::parse`, then `query_pairs`,
/// each name and value made an owned `String`); `None` where parsing fails.
/// Trusted: that the pairs are a function of the text alone.
#[verifier::external_body]
fn url_query_pairs(text: &str) -> (res: Option<Vec<(String, String)>>)
    ensures
        res is Some <==> spec_url_query_pairs(text@) is Some,
        res matches Some(p) ==> spec_url_query_pairs(text@) == Some(pairs_text(p@)),
{
    match reqwest::Url::parse(text) {
        Ok(url) => Some(url.query_pairs().map(|(k, v)| (k.into_owned(), v.into_owned())).collect()),
        Err(_) => None,
    }
}

/// The name "xt" (exact topic).
pub open spec fn name_xt() -> Seq<char> {
    seq!['x', 't']
}

/// The name "dn" (display name).
pub open spec fn name_dn() -> Seq<char> {
    seq!['d', 'n']
}

/// The name "tr" (tracker).
pub open spec fn name_tr() -> Seq<char> {
    seq!['t', 'r']
}

/// The prefix "urn:btih:" of a BitTorrent info hash topic.
pub open spec fn btih_prefix() -> Seq<char> {
    seq!['u', 'r', 'n', ':', 'b', 't', 'i', 'h', ':']
}

/// What reading a hash from hex text gives (`HashId::from_hex`).
pub open spec fn spec_hash_from_hex(s: Seq<char>) -> Result<HashId, TorrentError> {
    match hex_bytes(s) {
        None => Err(TorrentError::InvalidHex),
        Some(b) => if b.len() == 20 {
            Ok(HashId(array_of::<20>(b)))
        } else {
            Err(TorrentError::InvalidHashLength(b.len() as usize))
        },
    }
}

/// What a magnet link's fields are after reading its query pairs in order:
/// the display name, the info hash and the tracker, each the last one given.
/// An exact topic that is not "urn:btih:" and a hash in hex is an error,
/// where it comes; other names are not read.
pub open spec fn magnet_scan(p: Seq<(Seq<char>, Seq<char>)>) -> Result<(Option<Seq<char>>, Option<HashId>, Option<Seq<char>>), TorrentError>
    decreases p.len(),
{
    if p.len() == 0 {
        Ok((None, None, None))
    } else {
        match magnet_scan(p.drop_last()) {
            Err(e) => Err(e),
            Ok((n, h, a)) => {
                let k = p.last().0;
                let v = p.last().1;
                if k == name_xt() {
                    if v.len() >= 9 && v.subrange(0, 9) == btih_prefix() {
                        match spec_hash_from_hex(v.subrange(9, v.len() as int)) {
                            Ok(x) => Ok((n, Some(x), a)),
                            Err(e) => Err(e),
                        }
                    } else {
                        Err(TorrentError::InvalidInfoHash)
                    }
                } else if k == name_dn() {
                    Ok((Some(v), h, a))
                } else if k == name_tr() {
                    Ok((n, h, Some(v)))
                } else {
                    Ok((n, h, a))
                }
            },
        }
    }
}

/// Query pairs that name an info hash, or fail before the end.
pub open spec fn scan_has_hash(p: Seq<(Seq<char>, Seq<char>)>) -> bool {
    !(magnet_scan(p) matches Ok((_, None, _)))
}

/// The value of the last pair of `p` with the name `name`; `None` where no
/// pair has that name.
pub open spec fn last_value(p: Seq<(Seq<char>, Seq<char>)>, name: Seq<char>) -> Option<Seq<char>>
    decreases p.len(),
{
    if p.len() == 0 {
        None
    } else if p.last().0 == name {
        Some(p.last().1)
    } else {
        last_value(p.drop_last(), name)
    }
}

/// The pair at `k` is the last pair of `p` with the name `name`.
pub open spec fn is_last_named(p: Seq<(Seq<char>, Seq<char>)>, name: Seq<char>, k: int) -> bool {
    &&& 0 <= k < p.len()
    &&& p[k].0 == name
    &&& forall|j: int| k < j < p.len() ==> (#[trigger] p[j]).0 != name
}

/// No pair of `p` has the name `name`.
pub open spec fn never_named(p: Seq<(Seq<char>, Seq<char>)>, name: Seq<char>) -> bool {
    forall|j: int| 0 <= j < p.len() ==> (#[trigger] p[j]).0 != name
}

/// `last_value` is the value at the index of the last pair with the name.
proof fn lemma_last_value_at(p: Seq<(Seq<char>, Seq<char>)>, name: Seq<char>, k: int)
    requires
        is_last_named(p, name, k),
    ensures
        last_value(p, name) == Some(p[k].1),
    decreases p.len(),
{
    if k < p.len() - 1 {
        let q = p.drop_last();
        assert(p[p.len() - 1].0 != name);
        assert forall|j: int| k < j < q.len() implies (#[trigger] q[j]).0 != name by {
            assert(q[j] == p[j]);
        }
        lemma_last_value_at(q, name, k);
    }
}

/// `last_value` is `None` where no pair has the name.
proof fn lemma_last_value_none(p: Seq<(Seq<char>, Seq<char>)>, name: Seq<char>)
    requires
        never_named(p, name),
    ensures
        last_value(p, name) is None,
    decreases p.len(),
{
    if p.len() > 0 {
        let q = p.drop_last();
        assert(p[p.len() - 1].0 != name);
        assert forall|j: int| 0 <= j < q.len() implies (#[trigger] q[j]).0 != name by {
            assert(q[j] == p[j]);
        }
        lemma_last_value_none(q, name);
    }
}

/// Where reading the query pairs succeeds, the display name is the value
/// of the last "dn" pair and the tracker that of the last "tr" pair.
proof fn lemma_scan_last_values(p: Seq<(Seq<char>, Seq<char>)>)
    requires
        magnet_scan(p) is Ok,
    ensures
        magnet_scan(p)->Ok_0.0 == last_value(p, name_dn()),
        magnet_scan(p)->Ok_0.2 == last_value(p, name_tr()),
    decreases p.len(),
{
    if p.len() > 0 {
        assert(name_xt()[0] != name_dn()[0]);
        assert(name_xt()[0] != name_tr()[0]);
        assert(name_dn()[0] != name_tr()[0]);
        lemma_scan_last_values(p.drop_last());
    }
}

/// The tracker of a magnet link is the value of its last "tr" pair: for
/// query pairs that are read without error and whose last pair named "tr"
/// is at `k`, the tracker read is the value at `k`.
pub proof fn lemma_magnet_tracker_is_last(p: Seq<(Seq<char>, Seq<char>)>, k: int)
    requires
        magnet_scan(p) is Ok,
        is_last_named(p, name_tr(), k),
    ensures
        magnet_scan(p)->Ok_0.2 == Some(p[k].1),
{
    lemma_scan_last_values(p);
    lemma_last_value_at(p, name_tr(), k);
}

/// The display name of a magnet link is the value of its last "dn" pair:
/// for query pairs that are read without error and whose last pair named
/// "dn" is at `k`, the name read is the value at `k`.
pub proof fn lemma_magnet_name_is_last(p: Seq<(Seq<char>, Seq<char>)>, k: int)
    requires
        magnet_scan(p) is Ok,
        is_last_named(p, name_dn(), k),
    ensures
        magnet_scan(p)->Ok_0.0 == Some(p[k].1),
{
    lemma_scan_last_values(p);
    lemma_last_value_at(p, name_dn(), k);
}

/// A magnet link with no "tr" pair has no tracker, and one with no "dn"
/// pair has no display name.
pub proof fn lemma_magnet_unnamed(p: Seq<(Seq<char>, Seq<char>)>)
    requires
        magnet_scan(p) is Ok,
    ensures
        never_named(p, name_tr()) ==> magnet_scan(p)->Ok_0.2 is None,
        never_named(p, name_dn()) ==> magnet_scan(p)->Ok_0.0 is None,
{
    lemma_scan_last_values(p);
    if never_named(p, name_tr()) {
        lemma_last_value_none(p, name_tr());
    }
    if never_named(p, name_dn()) {
        lemma_last_value_none(p, name_dn());
    }
}

/// A magnet link, as read, with the tracker's answer and the torrent's
/// info dictionary once the client has them.
#[derive(Debug, Clone)]
pub struct Magnet {
    pub name: Option<String>,
    pub info_hash: HashId,
    pub announce: Option<String>,
    pub tracker: Option<Tracker>,
    pub torrent_info: Option<TorrentInfo>,
}

/// A magnet link as a value.
pub ghost struct MagnetView {
    pub name: Option<Seq<char>>,
    pub info_hash: HashId,
    pub announce: Option<Seq<char>>,
    pub tracker: Option<(u32, Seq<Peer>)>,
    pub torrent_info: Option<TorrentInfoView>,
}

/// The text of an optional string.
pub open spec fn opt_text(s: Option<String>) -> Option<Seq<char>> {
    match s {
        Some(t) => Some(t@),
        None => None,
    }
}

impl View for Magnet {
    type V = MagnetView;

    open spec fn view(&self) -> MagnetView {
        MagnetView {
            name: opt_text(self.name),
            info_hash: self.info_hash,
            announce: opt_text(self.announce),
            tracker: match self.tracker {
                Some(t) => Some(t@),
                None => None,
            },
            torrent_info: match self.torrent_info {
                Some(i) => Some(i@),
                None => None,
            },
        }
    }
}

/// Whether the text `s` is `t`.
fn text_is(s: &str, t: &str) -> (res: bool)
    ensures
        res == (s@ == t@),
{
    let n = s.unicode_len();
    if n != t.unicode_len() {
        return false;
    }
    let mut i: usize = 0;
    while i < n
        invariant
            n == s@.len(),
            n == t@.len(),
            i <= n,
            forall|j: int| 0 <= j < i ==> s@[j] == t@[j],
        decreases n - i,
    {
        if s.get_char(i) != t.get_char(i) {
            return false;
        }
        i = i + 1;
    }
    assert(s@ =~= t@);
    true
}

/// The hex text of a BitTorrent info hash topic: the text after
/// "urn:btih:", if it starts so.
fn btih_hex(v: &str) -> (res: Option<&str>)
    ensures
        match res {
            Some(h) => v@.len() >= 9 && v@.subrange(0, 9) == btih_prefix() && h@ == v@.subrange(9, v@.len() as int),
            None => !(v@.len() >= 9 && v@.subrange(0, 9) == btih_prefix()),
        },
{
    let n = v.unicode_len();
    if n < 9 {
        return None;
    }
    let head = v.substring_char(0, 9);
    let is_prefix = text_is(head, "urn:btih:");
    proof {
        reveal_strlit("urn:btih:");
        assert("urn:btih:"@ =~= btih_prefix());
    }
    if !is_prefix {
        return None;
    }
    Some(v.substring_char(9, n))
}

/// An error in reading some first query pairs is the error of reading them
/// all.
proof fn lemma_scan_error_stays(p: Seq<(Seq<char>, Seq<char>)>, j: int)
    requires
        0 <= j <= p.len(),
        magnet_scan(p.subrange(0, j)) is Err,
    ensures
        magnet_scan(p) == magnet_scan(p.subrange(0, j)),
    decreases p.len() - j,
{
    if j < p.len() {
        let next = p.subrange(0, j + 1);
        assert(next.drop_last() =~= p.subrange(0, j));
        lemma_scan_error_stays(p, j + 1);
    } else {
        assert(p.subrange(0, j) =~= p);
    }
}

/// Reads the fields of a magnet link from its query pairs, in order.
fn scan_pairs(pairs: &Vec<(String, String)>) -> (res: Result<(Option<String>, Option<HashId>, Option<String>), TorrentError>)
    ensures
        match res {
            Ok((n, h, a)) => magnet_scan(pairs_text(pairs@)) == Ok::<(Option<Seq<char>>, Option<HashId>, Option<Seq<char>>), TorrentError>((opt_text(n), h, opt_text(a))),
            Err(e) => magnet_scan(pairs_text(pairs@)) == Err::<(Option<Seq<char>>, Option<HashId>, Option<Seq<char>>), TorrentError>(e),
        },
{
    let ghost all = pairs_text(pairs@);
    let mut name: Option<String> = None;
    let mut info_hash: Option<HashId> = None;
    let mut announce: Option<String> = None;
    let mut i: usize = 0;
    while i < pairs.len()
        invariant
            i <= pairs@.len(),
            all == pairs_text(pairs@),
            magnet_scan(all.subrange(0, i as int)) == Ok::<(Option<Seq<char>>, Option<HashId>, Option<Seq<char>>), TorrentError>((opt_text(name), info_hash, opt_text(announce))),
        decreases pairs@.len() - i,
    {
        let k = pairs[i].0.as_str();
        let v = pairs[i].1.as_str();
        let ghost next = all.subrange(0, i + 1);
        assert(next.drop_last() =~= all.subrange(0, i as int));
        assert(next.last() == (k@, v@));
        proof {
            reveal_strlit("xt");
            reveal_strlit("dn");
            reveal_strlit("tr");
            assert("xt"@ =~= name_xt());
            assert("dn"@ =~= name_dn());
            assert("tr"@ =~= name_tr());
        }
        if text_is(k, "xt") {
            match btih_hex(v) {
                Some(hex) => match HashId::from_hex(hex) {
                    Ok(h) => {
                        proof {
                            lemma_array_of::<20>(h.0);
                        }
                        info_hash = Some(h);
                    },
                    Err(e) => {
                        proof {
                            lemma_scan_error_stays(all, i + 1);
                        }
                        return Err(e);
                    },
                },
                None => {
                    proof {
                        lemma_scan_error_stays(all, i + 1);
                    }
                    return Err(TorrentError::InvalidInfoHash);
                },
            }
        } else if text_is(k, "dn") {
            name = Some(v.to_owned());
        } else if text_is(k, "tr") {
            announce = Some(v.to_owned());
        }
        i = i + 1;
    }
    assert(all.subrange(0, i as int) =~= all);
    Ok((name, info_hash, announce))
}

impl Magnet {
    /// The magnet link whose query pairs are `pairs`: the last display
    /// name, info hash and tracker that they give. An exact topic that is
    /// not a BitTorrent info hash in hex is an error.
    pub fn from_query_pairs(pairs: &Vec<(String, String)>) -> (res: Result<Magnet, TorrentError>)
        requires
            scan_has_hash(pairs_text(pairs@)),
        ensures
            match magnet_scan(pairs_text(pairs@)) {
                Ok((n, h, a)) => res is Ok && res->Ok_0@ == (MagnetView {
                    name: n,
                    info_hash: h.unwrap(),
                    announce: a,
                    tracker: None,
                    torrent_info: None,
                }),
                Err(e) => res == Err::<Magnet, TorrentError>(e),
            },
            res matches Ok(m) ==> m@.announce == last_value(pairs_text(pairs@), name_tr())
                && m@.name == last_value(pairs_text(pairs@), name_dn()),
    {
        proof {
            if magnet_scan(pairs_text(pairs@)) is Ok {
                lemma_scan_last_values(pairs_text(pairs@));
            }
        }
        let (name, info_hash, announce) = scan_pairs(pairs)?;
        Ok(Magnet { name, info_hash: info_hash.unwrap(), announce, tracker: None, torrent_info: None })
    }

    /// The magnet link that `magnet` is. Text that is not a URL is an error.
    pub fn from_str(magnet: &str) -> (res: Result<Magnet, TorrentError>)
        requires
            spec_url_query_pairs(magnet@) matches Some(p) ==> scan_has_hash(p),
        ensures
            match spec_url_query_pairs(magnet@) {
                None => res == Err::<Magnet, TorrentError>(TorrentError::InvalidUrl),
                Some(p) => match magnet_scan(p) {
                    Ok((n, h, a)) => res is Ok && res->Ok_0@ == (MagnetView {
                        name: n,
                        info_hash: h.unwrap(),
                        announce: a,
                        tracker: None,
                        torrent_info: None,
                    }),
                    Err(e) => res == Err::<Magnet, TorrentError>(e),
                },
            },
            res matches Ok(m) ==> (spec_url_query_pairs(magnet@) matches Some(p)
                && m@.announce == last_value(p, name_tr()) && m@.name == last_value(p, name_dn())),
    {
        match url_query_pairs(magnet) {
            Some(pairs) => Magnet::from_query_pairs(&pairs),
            None => Err(TorrentError::InvalidUrl),
        }
    }

    /// The magnet link that `magnet` is, as `from_str` reads it; `None`
    /// where the link names no info hash.
    pub fn parse(magnet: &str) -> (res: Option<Result<Magnet, TorrentError>>)
        ensures
            match spec_url_query_pairs(magnet@) {
                None => res == Some(Err::<Magnet, TorrentError>(TorrentError::InvalidUrl)),
                Some(p) => match magnet_scan(p) {
                    Ok((n, h, a)) => match h {
                        None => res is None,
                        Some(x) => res matches Some(Ok(m)) && m@ == (MagnetView {
                            name: n,
                            info_hash: x,
                            announce: a,
                            tracker: None,
                            torrent_info: None,
                        }),
                    },
                    Err(e) => res == Some(Err::<Magnet, TorrentError>(e)),
                },
            },
    {
        let pairs = match url_query_pairs(magnet) {
            Some(p) => p,
            None => {
                return Some(Err(TorrentError::InvalidUrl));
            },
        };
        match scan_pairs(&pairs) {
            Ok((_, None, _)) => None,
            _ => Some(Magnet::from_str(magnet)),
        }
    }

    /// The tracker's URL.
    pub fn announce(&self) -> (res: &str)
        requires
            self@.announce is Some,
        ensures
            Some(res@) == self@.announce,
    {
        self.announce.as_ref().unwrap().as_str()
    }

    /// Whether the tracker has answered already.
    pub fn has_tracker(&self) -> (res: bool)
        ensures
            res == self@.tracker is Some,
    {
        self.tracker.is_some()
    }

    /// The tracker's answer.
    pub fn tracker(&self) -> (res: &Tracker)
        requires
            self@.tracker is Some,
        ensures
            Some(res@) == self@.tracker,
    {
        self.tracker.as_ref().unwrap()
    }

    /// Keeps the tracker's answer; a tracker asks only once, so an answer
    /// that is already kept stays.
    pub fn set_tracker(&mut self, tracker: Tracker)
        ensures
            final(self)@ == (MagnetView {
                tracker: if old(self)@.tracker is Some { old(self)@.tracker } else { Some(tracker@) },
                ..old(self)@
            }),
    {
        if self.tracker.is_none() {
            self.tracker = Some(tracker);
        }
    }

    /// The torrent's info dictionary.
    pub fn torrent_info(&self) -> (res: &TorrentInfo)
        requires
            self@.torrent_info is Some,
        ensures
            Some(res@) == self@.torrent_info,
    {
        self.torrent_info.as_ref().unwrap()
    }

    /// Keeps the torrent's info dictionary, which a peer sent.
    pub fn set_torrent_info(&mut self, info: TorrentInfo)
        ensures
            final(self)@ == (MagnetView { torrent_info: Some(info@), ..old(self)@ }),
    {
        self.torrent_info = Some(info);
    }

    /// The handshake to send to a peer of this torrent: its info hash, this
    /// client's peer id, and support for the extension protocol.
    pub fn handshake_request(&self) -> (res: PeerHandshake)
        ensures
            res == (PeerHandshake {
                reserved: array_of::<8>(crate::messages::extension_reserved()),
                ..PeerHandshake::default_spec(Some(self@.info_hash), None)
            }),
    {
        PeerHandshake::new(Some(self.info_hash), None, true)
    }
}

} // verus!
