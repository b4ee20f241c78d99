//! The saved-view registry: which views are saved, what each subscriber
//! has to be told, and the subscriber bookkeeping.  This is the decision
//! core of the persistence layer — reading records from disk, restoring
//! capabilities and sending frames stay with the surrounding event loop,
//! which broadcasts each returned `Action` to its subscribers.

use vstd::prelude::*;

verus! {

use crate::json::{
    Action,
    ActionV,
    SavedUiViewData,
    SavedUiViewDataV,
    ViewInfoData,
    ViewInfoDataV,
    opt_view,
};
use crate::web_session::str_eq;

/// Replacing the value under a token, or appending the pair where the
/// token is new.
pub open spec fn upsert<V>(vs: Seq<(Seq<char>, V)>, token: Seq<char>, value: V) -> Seq<
    (Seq<char>, V),
>
    decreases vs.len(),
{
    if vs.len() == 0 {
        seq![(token, value)]
    } else if vs[0].0 == token {
        seq![(token, value)] + vs.drop_first()
    } else {
        seq![vs[0]] + upsert(vs.drop_first(), token, value)
    }
}

/// Dropping the pair under a token, where it exists.
pub open spec fn remove_key<V>(vs: Seq<(Seq<char>, V)>, token: Seq<char>) -> Seq<(Seq<char>, V)>
    decreases vs.len(),
{
    if vs.len() == 0 {
        vs
    } else if vs[0].0 == token {
        vs.drop_first()
    } else {
        seq![vs[0]] + remove_key(vs.drop_first(), token)
    }
}

/// The value stored under a token.
pub open spec fn lookup<V>(vs: Seq<(Seq<char>, V)>, token: Seq<char>) -> Option<V>
    decreases vs.len(),
{
    if vs.len() == 0 {
        None
    } else if vs[0].0 == token {
        Some(vs[0].1)
    } else {
        lookup(vs.drop_first(), token)
    }
}

proof fn lemma_upsert_at<V>(vs: Seq<(Seq<char>, V)>, token: Seq<char>, value: V, i: int)
    requires
        0 <= i < vs.len(),
        vs[i].0 == token,
        forall|k: int| 0 <= k < i ==> (#[trigger] vs[k]).0 != token,
    ensures
        upsert(vs, token, value) == vs.update(i, (token, value)),
    decreases vs.len(),
{
    if i == 0 {
        assert(upsert(vs, token, value) =~= vs.update(0, (token, value)));
    } else {
        assert(vs[0].0 != token);
        assert(vs.drop_first()[i - 1].0 == token);
        assert(forall|k: int| 0 <= k < i - 1 ==> (#[trigger] vs.drop_first()[k]).0 != token);
        lemma_upsert_at(vs.drop_first(), token, value, i - 1);
        assert(upsert(vs, token, value) =~= vs.update(i, (token, value)));
    }
}

proof fn lemma_upsert_missing<V>(vs: Seq<(Seq<char>, V)>, token: Seq<char>, value: V)
    requires
        forall|k: int| 0 <= k < vs.len() ==> (#[trigger] vs[k]).0 != token,
    ensures
        upsert(vs, token, value) == vs.push((token, value)),
    decreases vs.len(),
{
    if vs.len() == 0 {
        assert(upsert(vs, token, value) =~= vs.push((token, value)));
    } else {
        assert(vs[0].0 != token);
        lemma_upsert_missing(vs.drop_first(), token, value);
        assert(upsert(vs, token, value) =~= vs.push((token, value)));
    }
}

proof fn lemma_remove_key_at<V>(vs: Seq<(Seq<char>, V)>, token: Seq<char>, i: int)
    requires
        0 <= i < vs.len(),
        vs[i].0 == token,
        forall|k: int| 0 <= k < i ==> (#[trigger] vs[k]).0 != token,
    ensures
        remove_key(vs, token) == vs.remove(i),
    decreases vs.len(),
{
    if i == 0 {
        assert(remove_key(vs, token) =~= vs.remove(0));
    } else {
        assert(vs[0].0 != token);
        assert(vs.drop_first()[i - 1].0 == token);
        assert(forall|k: int| 0 <= k < i - 1 ==> (#[trigger] vs.drop_first()[k]).0 != token);
        lemma_remove_key_at(vs.drop_first(), token, i - 1);
        assert(remove_key(vs, token) =~= vs.remove(i));
    }
}

proof fn lemma_remove_key_missing<V>(vs: Seq<(Seq<char>, V)>, token: Seq<char>)
    requires
        forall|k: int| 0 <= k < vs.len() ==> (#[trigger] vs[k]).0 != token,
    ensures
        remove_key(vs, token) == vs,
    decreases vs.len(),
{
    if vs.len() > 0 {
        assert(vs[0].0 != token);
        lemma_remove_key_missing(vs.drop_first(), token);
        assert(remove_key(vs, token) =~= vs);
    }
}

proof fn lemma_lookup_at<V>(vs: Seq<(Seq<char>, V)>, token: Seq<char>, i: int)
    requires
        0 <= i < vs.len(),
        vs[i].0 == token,
        forall|k: int| 0 <= k < i ==> (#[trigger] vs[k]).0 != token,
    ensures
        lookup(vs, token) == Some(vs[i].1),
    decreases vs.len(),
{
    if i > 0 {
        assert(vs[0].0 != token);
        assert(vs.drop_first()[i - 1] == vs[i]);
        assert(forall|k: int| 0 <= k < i - 1 ==> (#[trigger] vs.drop_first()[k]).0 != token);
        lemma_lookup_at(vs.drop_first(), token, i - 1);
    }
}

proof fn lemma_lookup_missing<V>(vs: Seq<(Seq<char>, V)>, token: Seq<char>)
    requires
        forall|k: int| 0 <= k < vs.len() ==> (#[trigger] vs[k]).0 != token,
    ensures
        lookup(vs, token) is None,
    decreases vs.len(),
{
    if vs.len() > 0 {
        assert(vs[0].0 != token);
        lemma_lookup_missing(vs.drop_first(), token);
    }
}

/// The abstract registry state.
#[verifier::ext_equal]
pub struct SavedUiViewSetV {
    pub views: Seq<(Seq<char>, SavedUiViewDataV)>,
    pub view_infos: Seq<(Seq<char>, Result<ViewInfoDataV, Seq<char>>)>,
    pub next_id: u64,
    pub subscribers: Seq<u64>,
    pub description: Seq<char>,
}

/// The saved-view registry.  Tokens are unique among the saved views and
/// among the retrieved view infos; subscriber handles are unique and below
/// the allocation counter.
pub struct SavedUiViewSet {
    pub views: Vec<(String, SavedUiViewData)>,
    pub view_infos: Vec<(String, Result<ViewInfoData, String>)>,
    pub next_id: u64,
    pub subscribers: Vec<u64>,
    pub description: String,
}

pub open spec fn view_pair(p: (String, SavedUiViewData)) -> (Seq<char>, SavedUiViewDataV) {
    (p.0@, p.1@)
}

pub open spec fn info_result(r: Result<ViewInfoData, String>) -> Result<ViewInfoDataV, Seq<char>> {
    match r {
        Ok(d) => Ok(d@),
        Err(e) => Err(e@),
    }
}

pub open spec fn info_pair(p: (String, Result<ViewInfoData, String>)) -> (
    Seq<char>,
    Result<ViewInfoDataV, Seq<char>>,
) {
    (p.0@, info_result(p.1))
}

impl View for SavedUiViewSet {
    type V = SavedUiViewSetV;

    open spec fn view(&self) -> SavedUiViewSetV {
        SavedUiViewSetV {
            views: self.views@.map_values(|p: (String, SavedUiViewData)| view_pair(p)),
            view_infos: self.view_infos@.map_values(
                |p: (String, Result<ViewInfoData, String>)| info_pair(p),
            ),
            next_id: self.next_id,
            subscribers: self.subscribers@,
            description: self.description@,
        }
    }
}

impl SavedUiViewSetV {
    pub open spec fn wf(self) -> bool {
        &&& forall|i: int, j: int|
            0 <= i < j < self.views.len() ==> (#[trigger] self.views[i]).0 != (
            #[trigger] self.views[j]).0
        &&& forall|i: int, j: int|
            0 <= i < j < self.view_infos.len() ==> (#[trigger] self.view_infos[i]).0 != (
            #[trigger] self.view_infos[j]).0
        &&& forall|i: int| 0 <= i < self.subscribers.len() ==> #[trigger] self.subscribers[i]
            < self.next_id
        &&& forall|i: int, j: int|
            0 <= i < j < self.subscribers.len() ==> #[trigger] self.subscribers[i] != (
            #[trigger] self.subscribers[j])
    }
}

/// The replay of the saved views, one insert event per record, in the
/// registry's order.
pub open spec fn insert_actions(vs: Seq<(Seq<char>, SavedUiViewDataV)>) -> Seq<ActionV> {
    vs.map_values(|p: (Seq<char>, SavedUiViewDataV)| ActionV::Insert { token: p.0, data: p.1 })
}

/// The replay of the retrieved view infos.
pub open spec fn info_actions(vs: Seq<(Seq<char>, Result<ViewInfoDataV, Seq<char>>)>) -> Seq<
    ActionV,
> {
    vs.map_values(
        |p: (Seq<char>, Result<ViewInfoDataV, Seq<char>>)| ActionV::ViewInfo {
            token: p.0,
            data: p.1,
        },
    )
}

/// Everything a fresh subscriber is told, in order: its write permission,
/// its user id, the description, every saved view, every view info.
pub open spec fn subscription_actions(
    s: SavedUiViewSetV,
    can_write: bool,
    user_id: Option<Seq<char>>,
) -> Seq<ActionV> {
    seq![ActionV::CanWrite(can_write), ActionV::UserId(user_id), ActionV::Description(
        s.description,
    )] + insert_actions(s.views) + info_actions(s.view_infos)
}

impl SavedUiViewSet {
    /// A fresh registry holding only the description text.
    pub fn new(description: String) -> (r: SavedUiViewSet)
        ensures
            r@ == (SavedUiViewSetV {
                views: Seq::empty(),
                view_infos: Seq::empty(),
                next_id: 0,
                subscribers: Seq::empty(),
                description: description@,
            }),
            r@.wf(),
    {
        let r = SavedUiViewSet {
            views: Vec::new(),
            view_infos: Vec::new(),
            next_id: 0,
            subscribers: Vec::new(),
            description,
        };
        assert(r@.views =~= Seq::<(Seq<char>, SavedUiViewDataV)>::empty());
        assert(r@.view_infos =~= Seq::<(Seq<char>, Result<ViewInfoDataV, Seq<char>>)>::empty());
        r
    }

    /// Index of the view saved under a token.
    fn find_view(&self, token: &str) -> (r: Option<usize>)
        ensures
            (match r {
                Some(i) => i < self@.views.len() && self@.views[i as int].0 == token@
                    && forall|k: int| 0 <= k < i ==> (#[trigger] self@.views[k]).0 != token@,
                None => forall|k: int|
                    0 <= k < self@.views.len() ==> (#[trigger] self@.views[k]).0 != token@,
            }),
    {
        let mut i: usize = 0;
        while i < self.views.len()
            invariant
                i <= self.views@.len(),
                self@.views.len() == self.views@.len(),
                forall|k: int| 0 <= k < i ==> (#[trigger] self@.views[k]).0 != token@,
            decreases self.views@.len() - i,
        {
            if str_eq(self.views[i].0.as_str(), token) {
                proof {
                    assert(self@.views[i as int] == view_pair(self.views@[i as int]));
                }
                return Some(i);
            }
            proof {
                assert(self@.views[i as int] == view_pair(self.views@[i as int]));
            }
            i = i + 1;
        }
        None
    }

    /// Index of the view info retrieved under a token.
    fn find_info(&self, token: &str) -> (r: Option<usize>)
        ensures
            (match r {
                Some(i) => i < self@.view_infos.len() && self@.view_infos[i as int].0 == token@
                    && forall|k: int| 0 <= k < i ==> (#[trigger] self@.view_infos[k]).0 != token@,
                None => forall|k: int|
                    0 <= k < self@.view_infos.len() ==> (#[trigger] self@.view_infos[k]).0
                        != token@,
            }),
    {
        let mut i: usize = 0;
        while i < self.view_infos.len()
            invariant
                i <= self.view_infos@.len(),
                self@.view_infos.len() == self.view_infos@.len(),
                forall|k: int| 0 <= k < i ==> (#[trigger] self@.view_infos[k]).0 != token@,
            decreases self.view_infos@.len() - i,
        {
            if str_eq(self.view_infos[i].0.as_str(), token) {
                proof {
                    assert(self@.view_infos[i as int] == info_pair(self.view_infos@[i as int]));
                }
                return Some(i);
            }
            proof {
                assert(self@.view_infos[i as int] == info_pair(self.view_infos@[i as int]));
            }
            i = i + 1;
        }
        None
    }

    /// The saved record under a token, if any.
    pub fn get_saved_data(&self, token: &str) -> (r: Option<&SavedUiViewData>)
        ensures
            (match r {
                Some(d) => lookup(self@.views, token@) == Some(d@),
                None => lookup(self@.views, token@) is None,
            }),
    {
        match self.find_view(token) {
            Some(i) => {
                proof {
                    lemma_lookup_at(self@.views, token@, i as int);
                    assert(self@.views[i as int] == view_pair(self.views@[i as int]));
                }
                Some(&self.views[i].1)
            },
            None => {
                proof {
                    lemma_lookup_missing(self@.views, token@);
                }
                None
            },
        }
    }

    /// Record a saved view and return the event to broadcast.
    pub fn insert(&mut self, token: String, title: String, date_added: u64, added_by: Option<
        String,
    >) -> (r: Action)
        requires
            old(self)@.wf(),
        ensures
            final(self)@.wf(),
            ({
                let entry = SavedUiViewDataV {
                    title: title@,
                    date_added,
                    added_by: opt_view(added_by),
                };
                &&& r@ == (ActionV::Insert { token: token@, data: entry })
                &&& final(self)@ == (SavedUiViewSetV {
                    views: upsert(old(self)@.views, token@, entry),
                    ..old(self)@
                })
            }),
    {
        let entry = SavedUiViewData { title, date_added, added_by };
        let ghost entry_v: SavedUiViewDataV = entry@;
        let ghost vs = self@.views;
        let action = Action::Insert { token: token.clone(), data: entry.duplicate() };
        match self.find_view(token.as_str()) {
            Some(i) => {
                proof {
                    lemma_upsert_at(vs, token@, entry_v, i as int);
                }
                self.views.remove(i);
                self.views.insert(i, (token, entry));
                assert(self@.views =~= vs.update(i as int, (token@, entry_v)));
                assert(self@ =~= (SavedUiViewSetV {
                    views: upsert(vs, token@, entry_v),
                    ..old(self)@
                }));
                assert forall|a: int, b: int| 0 <= a < b < self@.views.len() implies (
                #[trigger] self@.views[a]).0 != (#[trigger] self@.views[b]).0 by {
                    assert(self@.views[a].0 == vs[a].0 && self@.views[b].0 == vs[b].0);
                }
            },
            None => {
                proof {
                    lemma_upsert_missing(vs, token@, entry_v);
                }
                self.views.push((token, entry));
                assert(self@.views =~= vs.push((token@, entry_v)));
                assert(self@ =~= (SavedUiViewSetV {
                    views: upsert(vs, token@, entry_v),
                    ..old(self)@
                }));
                assert forall|a: int, b: int| 0 <= a < b < self@.views.len() implies (
                #[trigger] self@.views[a]).0 != (#[trigger] self@.views[b]).0 by {
                    if b < vs.len() {
                        assert(self@.views[a].0 == vs[a].0 && self@.views[b].0 == vs[b].0);
                    } else {
                        assert(self@.views[a].0 == vs[a].0 && self@.views[b].0 == token@);
                    }
                }
            },
        }
        action
    }

    /// Drop a saved view and return the event to broadcast.
    pub fn remove(&mut self, token: &str) -> (r: Action)
        requires
            old(self)@.wf(),
        ensures
            final(self)@.wf(),
            r@ == (ActionV::Remove { token: token@ }),
            final(self)@ == (SavedUiViewSetV {
                views: remove_key(old(self)@.views, token@),
                ..old(self)@
            }),
    {
        let ghost vs = self@.views;
        match self.find_view(token) {
            Some(i) => {
                proof {
                    lemma_remove_key_at(vs, token@, i as int);
                }
                self.views.remove(i);
                assert(self@.views =~= vs.remove(i as int));
                assert(self@ =~= (SavedUiViewSetV {
                    views: remove_key(vs, token@),
                    ..old(self)@
                }));
                assert forall|a: int, b: int| 0 <= a < b < self@.views.len() implies (
                #[trigger] self@.views[a]).0 != (#[trigger] self@.views[b]).0 by {
                    let a0 = if a < i {
                        a
                    } else {
                        a + 1
                    };
                    let b0 = if b < i {
                        b
                    } else {
                        b + 1
                    };
                    assert(self@.views[a].0 == vs[a0].0 && self@.views[b].0 == vs[b0].0);
                }
            },
            None => {
                proof {
                    lemma_remove_key_missing(vs, token@);
                }
                assert(self@ =~= (SavedUiViewSetV {
                    views: remove_key(vs, token@),
                    ..old(self)@
                }));
            },
        }
        Action::Remove { token: token.to_owned() }
    }

    /// Record the outcome of a view-info retrieval and return the event to
    /// broadcast.
    pub fn set_view_info(&mut self, token: String, data: Result<ViewInfoData, String>) -> (r:
        Action)
        requires
            old(self)@.wf(),
        ensures
            final(self)@.wf(),
            r@ == (ActionV::ViewInfo { token: token@, data: info_result(data) }),
            final(self)@ == (SavedUiViewSetV {
                view_infos: upsert(old(self)@.view_infos, token@, info_result(data)),
                ..old(self)@
            }),
    {
        let ghost vs = self@.view_infos;
        let ghost data_v = info_result(data);
        let copy: Result<ViewInfoData, String> = match &data {
            Ok(d) => Ok(d.duplicate()),
            Err(e) => Err(e.clone()),
        };
        let action = Action::ViewInfo { token: token.clone(), data: copy };
        match self.find_info(token.as_str()) {
            Some(i) => {
                proof {
                    lemma_upsert_at(vs, token@, data_v, i as int);
                }
                self.view_infos.remove(i);
                self.view_infos.insert(i, (token, data));
                assert(self@.view_infos =~= vs.update(i as int, (token@, data_v)));
                assert(self@ =~= (SavedUiViewSetV {
                    view_infos: upsert(vs, token@, data_v),
                    ..old(self)@
                }));
                assert forall|a: int, b: int| 0 <= a < b < self@.view_infos.len() implies (
                #[trigger] self@.view_infos[a]).0 != (#[trigger] self@.view_infos[b]).0 by {
                    assert(self@.view_infos[a].0 == vs[a].0 && self@.view_infos[b].0 == vs[b].0);
                }
            },
            None => {
                proof {
                    lemma_upsert_missing(vs, token@, data_v);
                }
                self.view_infos.push((token, data));
                assert(self@.view_infos =~= vs.push((token@, data_v)));
                assert(self@ =~= (SavedUiViewSetV {
                    view_infos: upsert(vs, token@, data_v),
                    ..old(self)@
                }));
                assert forall|a: int, b: int| 0 <= a < b < self@.view_infos.len() implies (
                #[trigger] self@.view_infos[a]).0 != (#[trigger] self@.view_infos[b]).0 by {
                    if b < vs.len() {
                        assert(self@.view_infos[a].0 == vs[a].0 && self@.view_infos[b].0
                            == vs[b].0);
                    } else {
                        assert(self@.view_infos[a].0 == vs[a].0 && self@.view_infos[b].0
                            == token@);
                    }
                }
            },
        }
        action
    }

    /// Store a new description and return the event to broadcast.
    pub fn update_description(&mut self, description: String) -> (r: Action)
        requires
            old(self)@.wf(),
        ensures
            final(self)@.wf(),
            r@ == ActionV::Description(description@),
            final(self)@ == (SavedUiViewSetV { description: description@, ..old(self)@ }),
    {
        let action = Action::Description(description.clone());
        self.description = description;
        assert(self@ =~= (SavedUiViewSetV { description: self.description@, ..old(self)@ }));
        action
    }

    /// Whether any subscriber is connected.
    pub fn has_subscribers(&self) -> (r: bool)
        ensures
            r == (self@.subscribers.len() > 0),
    {
        self.subscribers.len() > 0
    }

    /// Register a new subscriber: allocate its handle and produce, in
    /// order, everything it must be told to catch up.
    pub fn new_subscriber(&mut self, can_write: bool, user_id: Option<String>) -> (r: (
        u64,
        Vec<Action>,
    ))
        requires
            old(self)@.wf(),
            old(self)@.next_id < u64::MAX,
        ensures
            final(self)@.wf(),
            r.0 == old(self)@.next_id,
            final(self)@ == (SavedUiViewSetV {
                next_id: (old(self)@.next_id + 1) as u64,
                subscribers: old(self)@.subscribers.push(r.0),
                ..old(self)@
            }),
            r.1@.map_values(|a: Action| a@) == subscription_actions(
                old(self)@,
                can_write,
                opt_view(user_id),
            ),
    {
        let ghost pre: SavedUiViewSetV = self@;
        let id = self.next_id;
        self.next_id = self.next_id + 1;
        self.subscribers.push(id);
        assert(self@ =~= (SavedUiViewSetV {
            next_id: (pre.next_id + 1) as u64,
            subscribers: pre.subscribers.push(id),
            ..pre
        }));
        let mut actions: Vec<Action> = Vec::new();
        actions.push(Action::CanWrite(can_write));
        actions.push(Action::UserId(user_id));
        actions.push(Action::Description(self.description.clone()));
        let ghost head: Seq<ActionV> = seq![ActionV::CanWrite(can_write), ActionV::UserId(
            opt_view(user_id),
        ), ActionV::Description(pre.description)];
        proof {
            assert(actions@.map_values(|a: Action| a@) =~= head);
        }
        let mut i: usize = 0;
        while i < self.views.len()
            invariant
                i <= self.views@.len(),
                self@ == (SavedUiViewSetV {
                    next_id: (pre.next_id + 1) as u64,
                    subscribers: pre.subscribers.push(id),
                    ..pre
                }),
                self@.views.len() == self.views@.len(),
                actions@.map_values(|a: Action| a@) == head + insert_actions(
                    pre.views.take(i as int),
                ),
            decreases self.views@.len() - i,
        {
            let ghost acts0 = actions@;
            let token = self.views[i].0.clone();
            let data = self.views[i].1.duplicate();
            actions.push(Action::Insert { token, data });
            proof {
                assert(self@.views[i as int] == view_pair(self.views@[i as int]));
                assert(actions@.last()@ == (ActionV::Insert {
                    token: pre.views[i as int].0,
                    data: pre.views[i as int].1,
                }));
                assert(pre.views.take(i as int + 1) =~= pre.views.take(i as int).push(
                    pre.views[i as int],
                ));
                assert(insert_actions(pre.views.take(i as int + 1)) =~= insert_actions(
                    pre.views.take(i as int),
                ).push(actions@.last()@));
                assert(actions@.map_values(|a: Action| a@) =~= acts0.map_values(|a: Action| a@)
                    + seq![actions@.last()@]);
                assert(actions@.map_values(|a: Action| a@) =~= head + insert_actions(
                    pre.views.take(i as int + 1),
                ));
            }
            i = i + 1;
        }
        proof {
            assert(pre.views.take(pre.views.len() as int) =~= pre.views);
        }
        let ghost mid: Seq<ActionV> = head + insert_actions(pre.views);
        let mut j: usize = 0;
        while j < self.view_infos.len()
            invariant
                j <= self.view_infos@.len(),
                self@ == (SavedUiViewSetV {
                    next_id: (pre.next_id + 1) as u64,
                    subscribers: pre.subscribers.push(id),
                    ..pre
                }),
                self@.view_infos.len() == self.view_infos@.len(),
                actions@.map_values(|a: Action| a@) == mid + info_actions(
                    pre.view_infos.take(j as int),
                ),
            decreases self.view_infos@.len() - j,
        {
            let ghost acts0 = actions@;
            let token = self.view_infos[j].0.clone();
            let data: Result<ViewInfoData, String> = match &self.view_infos[j].1 {
                Ok(d) => Ok(d.duplicate()),
                Err(e) => Err(e.clone()),
            };
            actions.push(Action::ViewInfo { token, data });
            proof {
                assert(self@.view_infos[j as int] == info_pair(self.view_infos@[j as int]));
                assert(actions@.last()@ == (ActionV::ViewInfo {
                    token: pre.view_infos[j as int].0,
                    data: pre.view_infos[j as int].1,
                }));
                assert(pre.view_infos.take(j as int + 1) =~= pre.view_infos.take(j as int).push(
                    pre.view_infos[j as int],
                ));
                assert(info_actions(pre.view_infos.take(j as int + 1)) =~= info_actions(
                    pre.view_infos.take(j as int),
                ).push(actions@.last()@));
                assert(actions@.map_values(|a: Action| a@) =~= acts0.map_values(|a: Action| a@)
                    + seq![actions@.last()@]);
                assert(actions@.map_values(|a: Action| a@) =~= mid + info_actions(
                    pre.view_infos.take(j as int + 1),
                ));
            }
            j = j + 1;
        }
        proof {
            assert(pre.view_infos.take(pre.view_infos.len() as int) =~= pre.view_infos);
            assert(actions@.map_values(|a: Action| a@) =~= subscription_actions(
                pre,
                can_write,
                opt_view(user_id),
            ));
        }
        (id, actions)
    }

    /// Drop a subscriber handle, if it is still registered.
    pub fn unsubscribe(&mut self, id: u64)
        requires
            old(self)@.wf(),
        ensures
            final(self)@.wf(),
            final(self)@ == (SavedUiViewSetV {
                subscribers: old(self)@.subscribers.remove_value(id),
                ..old(self)@
            }),
    {
        let ghost subs = self.subscribers@;
        let mut i: usize = 0;
        while i < self.subscribers.len()
            invariant
                i <= subs.len(),
                self.subscribers@ == subs,
                self@ == old(self)@,
                old(self)@.wf(),
                forall|k: int| 0 <= k < i ==> subs[k] != id,
            decreases subs.len() - i,
        {
            if self.subscribers[i] == id {
                proof {
                    subs.index_of_first_ensures(id);
                    assert(subs.index_of_first(id) == Some(i as int));
                }
                self.subscribers.remove(i);
                assert(self@ =~= (SavedUiViewSetV {
                    subscribers: subs.remove_value(id),
                    ..old(self)@
                }));
                assert forall|a: int, b: int| 0 <= a < b < self@.subscribers.len() implies (
                #[trigger] self@.subscribers[a]) != (#[trigger] self@.subscribers[b]) by {
                    let a0 = if a < i {
                        a
                    } else {
                        a + 1
                    };
                    let b0 = if b < i {
                        b
                    } else {
                        b + 1
                    };
                    assert(self@.subscribers[a] == subs[a0] && self@.subscribers[b] == subs[b0]);
                }
                return ;
            }
            i = i + 1;
        }
        proof {
            subs.index_of_first_ensures(id);
            assert(subs.remove_value(id) =~= subs);
        }
        assert(self@ =~= (SavedUiViewSetV { subscribers: subs.remove_value(id), ..old(self)@ }));
    }
}

} // verus!
