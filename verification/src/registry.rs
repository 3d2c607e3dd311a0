//! The connection registry: the authoritative set of live peer identities,
//! and the set of outbound URLs already linked (which prevents duplicate
//! outbound handshakes to the same address).
//!
//! Mutations are short insert/remove critical sections; the surrounding
//! process guards the registry with a reader-writer lock and never holds it
//! across a suspension point.

use vstd::prelude::*;
use vstd::seq_lib::*;
use crate::strutil::{contains_str, seq_views, str_eq, strings_contain};

verus! {

/// Abstract registry state: the set of peer identities and the set of linked
/// URLs, each as a set of character strings.
pub struct RegistryView {
    pub peers: Set<Seq<char>>,
    pub urls: Set<Seq<char>>,
}

/// A sequence of strings turned into the set of its views.
pub open spec fn views_set(v: Seq<String>) -> Set<Seq<char>> {
    seq_views(v).to_set()
}

/// Membership in the view set is membership by characters.
pub proof fn lemma_views_set_contains(v: Seq<String>, x: Seq<char>)
    ensures
        views_set(v).contains(x) <==> contains_str(v, x),
{
    if contains_str(v, x) {
        let i = choose|i: int| 0 <= i < v.len() && v[i]@ == x;
        assert(seq_views(v)[i] == x);
        assert(seq_views(v).contains(x));
    }
    if views_set(v).contains(x) {
        let i = choose|i: int| 0 <= i < seq_views(v).len() && seq_views(v)[i] == x;
        assert(v[i]@ == x);
    }
}

/// Pushing a string inserts its view into the view set.
pub proof fn lemma_views_set_push(v: Seq<String>, s: String)
    ensures
        views_set(v.push(s)) == views_set(v).insert(s@),
{
    let q = seq_views(v);
    let qp = seq_views(v.push(s));
    assert(qp =~= q.push(s@)) by {
        assert(forall|i: int| 0 <= i < v.len() ==> qp[i] == #[trigger] v[i]@);
    }
    assert forall|y: Seq<char>| q.push(s@).to_set().contains(y) implies q.to_set().insert(
        s@,
    ).contains(y) by {
        let i = choose|i: int| 0 <= i < q.push(s@).len() && q.push(s@)[i] == y;
        if i < q.len() {
            assert(q[i] == y);
        } else {
            assert(y == s@);
        }
    }
    assert forall|y: Seq<char>| q.to_set().insert(s@).contains(y) implies q.push(
        s@,
    ).to_set().contains(y) by {
        if y == s@ {
            assert(q.push(s@)[q.len() as int] == y);
        } else {
            let i = choose|i: int| 0 <= i < q.len() && q[i] == y;
            assert(q.push(s@)[i] == y);
        }
    }
    assert(q.push(s@).to_set() =~= q.to_set().insert(s@));
}

/// Removing the string at a position removes its view from the view set,
/// provided no other string has the same view.
pub proof fn lemma_views_set_remove(v: Seq<String>, i: int)
    requires
        0 <= i < v.len(),
        seq_views(v).no_duplicates(),
    ensures
        views_set(v.remove(i)) == views_set(v).remove(v[i]@),
        seq_views(v.remove(i)).no_duplicates(),
{
    let q = seq_views(v);
    let qr = seq_views(v.remove(i));
    assert(qr =~= q.remove(i)) by {
        assert(forall|j: int| 0 <= j < v.remove(i).len() ==> qr[j] == #[trigger] v.remove(i)[j]@);
        assert(forall|j: int|
            0 <= j < q.remove(i).len() ==> q.remove(i)[j] == (if j < i {
                q[j]
            } else {
                q[j + 1]
            }));
    }
    assert(q.remove(i).no_duplicates()) by {
        assert(forall|j: int|
            0 <= j < q.remove(i).len() ==> q.remove(i)[j] == (if j < i {
                q[j]
            } else {
                q[j + 1]
            }));
    }
    assert forall|y: Seq<char>| q.remove(i).to_set().contains(y) implies q.to_set().remove(
        v[i]@,
    ).contains(y) by {
        let j = choose|j: int| 0 <= j < q.remove(i).len() && q.remove(i)[j] == y;
        if j < i {
            assert(q[j] == y);
            assert(y != q[i]);
        } else {
            assert(q[j + 1] == y);
            assert(y != q[i]);
        }
    }
    assert forall|y: Seq<char>| q.to_set().remove(v[i]@).contains(y) implies q.remove(
        i,
    ).to_set().contains(y) by {
        let j = choose|j: int| 0 <= j < q.len() && q[j] == y;
        assert(j != i);
        if j < i {
            assert(q.remove(i)[j] == y);
        } else {
            assert(q.remove(i)[j - 1] == y);
        }
    }
    assert(q.remove(i).to_set() =~= q.to_set().remove(v[i]@));
}

/// Owns the set of known peer identities and the set of linked peer URLs.
pub struct ConnectionRegistry {
    peers: Vec<String>,
    urls: Vec<String>,
}

impl View for ConnectionRegistry {
    type V = RegistryView;

    closed spec fn view(&self) -> RegistryView {
        RegistryView { peers: views_set(self.peers@), urls: views_set(self.urls@) }
    }
}

impl ConnectionRegistry {
    /// The registry never holds the same identity or URL twice.
    pub closed spec fn wf(&self) -> bool {
        seq_views(self.peers@).no_duplicates() && seq_views(self.urls@).no_duplicates()
    }

    /// A fresh registry: no peers, no linked URLs.
    pub fn new() -> (r: ConnectionRegistry)
        ensures
            r.wf(),
            r@.peers == Set::<Seq<char>>::empty(),
            r@.urls == Set::<Seq<char>>::empty(),
    {
        let r = ConnectionRegistry { peers: Vec::new(), urls: Vec::new() };
        proof {
            assert forall|y: Seq<char>| !views_set(r.peers@).contains(y) by {
                lemma_views_set_contains(r.peers@, y);
            }
            assert(views_set(r.peers@) =~= Set::<Seq<char>>::empty());
            assert forall|y: Seq<char>| !views_set(r.urls@).contains(y) by {
                lemma_views_set_contains(r.urls@, y);
            }
            assert(views_set(r.urls@) =~= Set::<Seq<char>>::empty());
        }
        r
    }

    /// Whether an outbound link to this URL already exists.
    pub fn is_connected_to_url(&self, url: &str) -> (r: bool)
        ensures
            r == self@.urls.contains(url@),
    {
        proof {
            lemma_views_set_contains(self.urls@, url@);
        }
        strings_contain(&self.urls, url)
    }

    /// Records a peer identity; recording a known identity changes nothing.
    pub fn register_peer(&mut self, peer_id: String)
        requires
            old(self).wf(),
        ensures
            final(self).wf(),
            final(self)@.peers == old(self)@.peers.insert(peer_id@),
            final(self)@.urls == old(self)@.urls,
    {
        proof {
            lemma_views_set_contains(self.peers@, peer_id@);
        }
        if !strings_contain(&self.peers, peer_id.as_str()) {
            proof {
                lemma_views_set_push(self.peers@, peer_id);
                assert(seq_views(self.peers@.push(peer_id)) =~= seq_views(self.peers@).push(
                    peer_id@,
                )) by {
                    assert(forall|i: int|
                        0 <= i < self.peers@.len() ==> seq_views(self.peers@.push(peer_id))[i]
                            == #[trigger] self.peers@[i]@);
                }
            }
            self.peers.push(peer_id);
        } else {
            proof {
                assert(old(self)@.peers.insert(peer_id@) =~= old(self)@.peers);
            }
        }
    }

    /// Records an outbound URL as linked; recording a known URL changes
    /// nothing.
    pub fn register_url(&mut self, url: String)
        requires
            old(self).wf(),
        ensures
            final(self).wf(),
            final(self)@.urls == old(self)@.urls.insert(url@),
            final(self)@.peers == old(self)@.peers,
    {
        proof {
            lemma_views_set_contains(self.urls@, url@);
        }
        if !strings_contain(&self.urls, url.as_str()) {
            proof {
                lemma_views_set_push(self.urls@, url);
                assert(seq_views(self.urls@.push(url)) =~= seq_views(self.urls@).push(url@)) by {
                    assert(forall|i: int|
                        0 <= i < self.urls@.len() ==> seq_views(self.urls@.push(url))[i]
                            == #[trigger] self.urls@[i]@);
                }
            }
            self.urls.push(url);
        } else {
            proof {
                assert(old(self)@.urls.insert(url@) =~= old(self)@.urls);
            }
        }
    }

    /// Removes a peer identity.  Returns whether an entry was actually
    /// removed, so a second removal of the same peer is a detectable no-op
    /// and disconnect logging happens once.
    pub fn unregister_peer(&mut self, peer_id: &str) -> (r: bool)
        requires
            old(self).wf(),
        ensures
            final(self).wf(),
            r == old(self)@.peers.contains(peer_id@),
            final(self)@.peers == old(self)@.peers.remove(peer_id@),
            final(self)@.urls == old(self)@.urls,
    {
        proof {
            lemma_views_set_contains(self.peers@, peer_id@);
        }
        let mut i: usize = 0;
        while i < self.peers.len()
            invariant
                self.peers@ == old(self).peers@,
                self.urls@ == old(self).urls@,
                seq_views(self.peers@).no_duplicates(),
                seq_views(self.urls@).no_duplicates(),
                i <= self.peers@.len(),
                forall|j: int| 0 <= j < i ==> self.peers@[j]@ != peer_id@,
            decreases self.peers@.len() - i,
        {
            if str_eq(self.peers[i].as_str(), peer_id) {
                proof {
                    lemma_views_set_remove(self.peers@, i as int);
                    assert(seq_views(old(self).peers@)[i as int] == old(self).peers@[i as int]@);
                    lemma_views_set_contains(old(self).peers@, peer_id@);
                }
                self.peers.remove(i);
                return true;
            }
            i = i + 1;
        }
        proof {
            assert(!contains_str(self.peers@, peer_id@));
            assert(old(self)@.peers.remove(peer_id@) =~= old(self)@.peers);
        }
        false
    }

    /// Removes a URL from the linked set.  Returns whether an entry was
    /// actually removed.
    pub fn unregister_url(&mut self, url: &str) -> (r: bool)
        requires
            old(self).wf(),
        ensures
            final(self).wf(),
            r == old(self)@.urls.contains(url@),
            final(self)@.urls == old(self)@.urls.remove(url@),
            final(self)@.peers == old(self)@.peers,
    {
        proof {
            lemma_views_set_contains(self.urls@, url@);
        }
        let mut i: usize = 0;
        while i < self.urls.len()
            invariant
                self.peers@ == old(self).peers@,
                self.urls@ == old(self).urls@,
                seq_views(self.peers@).no_duplicates(),
                seq_views(self.urls@).no_duplicates(),
                i <= self.urls@.len(),
                forall|j: int| 0 <= j < i ==> self.urls@[j]@ != url@,
            decreases self.urls@.len() - i,
        {
            if str_eq(self.urls[i].as_str(), url) {
                proof {
                    lemma_views_set_remove(self.urls@, i as int);
                    assert(seq_views(old(self).urls@)[i as int] == old(self).urls@[i as int]@);
                    lemma_views_set_contains(old(self).urls@, url@);
                }
                self.urls.remove(i);
                return true;
            }
            i = i + 1;
        }
        proof {
            assert(!contains_str(self.urls@, url@));
            assert(old(self)@.urls.remove(url@) =~= old(self)@.urls);
        }
        false
    }

    /// The number of connected peers.
    pub fn peer_count(&self) -> (r: usize)
        requires
            self.wf(),
        ensures
            r == self@.peers.len(),
    {
        proof {
            seq_views(self.peers@).unique_seq_to_set();
        }
        self.peers.len()
    }

    /// Whether any peer is connected.
    pub fn has_peers(&self) -> (r: bool)
        requires
            self.wf(),
        ensures
            r == (self@.peers.len() != 0),
    {
        self.peer_count() != 0
    }

    /// All connected peer identities, in no particular order.
    pub fn get_peer_ids(&self) -> (r: Vec<String>)
        requires
            self.wf(),
        ensures
            views_set(r@) == self@.peers,
            seq_views(r@).no_duplicates(),
            r@.len() == self@.peers.len(),
    {
        let mut r: Vec<String> = Vec::new();
        let mut i: usize = 0;
        while i < self.peers.len()
            invariant
                i <= self.peers@.len(),
                r@.len() == i,
                forall|j: int| 0 <= j < i ==> r@[j]@ == #[trigger] self.peers@[j]@,
            decreases self.peers@.len() - i,
        {
            r.push(self.peers[i].clone());
            i = i + 1;
        }
        proof {
            assert(seq_views(r@) =~= seq_views(self.peers@)) by {
                assert(forall|j: int|
                    0 <= j < r@.len() ==> seq_views(r@)[j] == #[trigger] r@[j]@);
                assert(forall|j: int|
                    0 <= j < self.peers@.len() ==> seq_views(self.peers@)[j]
                        == #[trigger] self.peers@[j]@);
            }
            seq_views(self.peers@).unique_seq_to_set();
        }
        r
    }
}

} // verus!
