//! The tenant record: credentials, limits and webhook endpoints of one app,
//! and the read-mostly registry that resolves apps by id or by key.

use vstd::prelude::*;
use crate::text::str_eq;

verus! {

/// An outbound webhook endpoint of an app: where to POST, which event
/// types it wants, and an optional channel-name prefix filter.
#[derive(Debug)]
pub struct Webhook {
    pub url: String,
    pub event_types: Vec<String>,
    pub filter_prefix: Option<String>,
}

/// One tenant: public key, HMAC secret, switches and limits.
#[derive(Debug)]
pub struct App {
    pub id: String,
    pub key: String,
    pub secret: String,
    pub enabled: bool,
    pub max_connections: u32,
    pub max_client_events_per_second: u32,
    pub max_channels_per_connection: u32,
    pub enable_client_messages: bool,
    pub max_presence_members_per_channel: u32,
    pub max_presence_member_size_kb: u32,
    pub max_backend_events_per_second: u32,
    pub max_read_requests_per_second: u32,
    pub webhooks: Vec<Webhook>,
}

/// Read-mostly store of apps, unique by id and by key.
pub struct AppRegistry {
    apps: Vec<App>,
}

impl AppRegistry {
    pub closed spec fn wf(self) -> bool {
        &&& forall|i: int, j: int|
            0 <= i < j < self.apps@.len() ==> self.apps@[i].id@ != self.apps@[j].id@
        &&& forall|i: int, j: int|
            0 <= i < j < self.apps@.len() ==> self.apps@[i].key@ != self.apps@[j].key@
    }

    pub closed spec fn spec_has_id(self, id: Seq<char>) -> bool {
        exists|i: int| 0 <= i < self.apps@.len() && self.apps@[i].id@ == id
    }

    pub closed spec fn spec_has_key(self, key: Seq<char>) -> bool {
        exists|i: int| 0 <= i < self.apps@.len() && self.apps@[i].key@ == key
    }

    pub closed spec fn spec_app_count(self) -> nat {
        self.apps@.len()
    }

    pub fn new() -> (r: AppRegistry)
        ensures
            r.wf(),
            r.spec_app_count() == 0,
            forall|id: Seq<char>| !r.spec_has_id(id),
            forall|key: Seq<char>| !r.spec_has_key(key),
    {
        AppRegistry { apps: Vec::new() }
    }

    /// Admit a new app; refused when its id or key is already taken.
    pub fn register(&mut self, app: App) -> (r: bool)
        requires
            old(self).wf(),
        ensures
            final(self).wf(),
            r == (!old(self).spec_has_id(app.id@) && !old(self).spec_has_key(app.key@)),
            r ==> final(self).spec_has_id(app.id@) && final(self).spec_has_key(app.key@)
                && final(self).spec_app_count() == old(self).spec_app_count() + 1,
            !r ==> *final(self) == *old(self),
            forall|id: Seq<char>|
                #[trigger] final(self).spec_has_id(id) == (old(self).spec_has_id(id) || (r && id
                    == app.id@)),
            forall|key: Seq<char>|
                #[trigger] final(self).spec_has_key(key) == (old(self).spec_has_key(key) || (r && key
                    == app.key@)),
    {
        let id_taken = match self.find_by_id_index(app.id.as_str()) {
            Option::Some(_) => true,
            Option::None => false,
        };
        let key_taken = match self.find_by_key_index(app.key.as_str()) {
            Option::Some(_) => true,
            Option::None => false,
        };
        if id_taken || key_taken {
            return false;
        }
        let ghost pre = self.apps@;
        self.apps.push(app);
        proof {
            assert(self.apps@.drop_last() =~= pre);
            assert forall|id: Seq<char>| #[trigger]
                self.spec_has_id(id) == (old(self).spec_has_id(id) || id == self.apps@.last().id@)
            by {
                if self.spec_has_id(id) {
                    let i = choose|i: int| 0 <= i < self.apps@.len() && self.apps@[i].id@ == id;
                    if i < pre.len() {
                        assert(pre[i].id@ == id);
                    }
                } else {
                    if old(self).spec_has_id(id) {
                        let i = choose|i: int| 0 <= i < pre.len() && pre[i].id@ == id;
                        assert(self.apps@[i].id@ == id);
                    }
                }
            }
            assert forall|key: Seq<char>| #[trigger]
                self.spec_has_key(key) == (old(self).spec_has_key(key) || key
                    == self.apps@.last().key@)
            by {
                if self.spec_has_key(key) {
                    let i = choose|i: int| 0 <= i < self.apps@.len() && self.apps@[i].key@ == key;
                    if i < pre.len() {
                        assert(pre[i].key@ == key);
                    }
                } else {
                    if old(self).spec_has_key(key) {
                        let i = choose|i: int| 0 <= i < pre.len() && pre[i].key@ == key;
                        assert(self.apps@[i].key@ == key);
                    }
                }
            }
        }
        true
    }

    fn find_by_id_index(&self, id: &str) -> (r: Option<usize>)
        ensures
            match r {
                Option::Some(i) => i < self.apps@.len() && self.apps@[i as int].id@ == id@,
                Option::None => !self.spec_has_id(id@),
            },
    {
        let n = self.apps.len();
        let mut i: usize = 0;
        while i < n
            invariant
                i <= n,
                n == self.apps@.len(),
                forall|j: int| 0 <= j < i ==> self.apps@[j].id@ != id@,
            decreases n - i,
        {
            if str_eq(self.apps[i].id.as_str(), id) {
                return Option::Some(i);
            }
            i += 1;
        }
        Option::None
    }

    fn find_by_key_index(&self, key: &str) -> (r: Option<usize>)
        ensures
            match r {
                Option::Some(i) => i < self.apps@.len() && self.apps@[i as int].key@ == key@,
                Option::None => !self.spec_has_key(key@),
            },
    {
        let n = self.apps.len();
        let mut i: usize = 0;
        while i < n
            invariant
                i <= n,
                n == self.apps@.len(),
                forall|j: int| 0 <= j < i ==> self.apps@[j].key@ != key@,
            decreases n - i,
        {
            if str_eq(self.apps[i].key.as_str(), key) {
                return Option::Some(i);
            }
            i += 1;
        }
        Option::None
    }

    /// Resolve an app by its id.
    pub fn find_by_id(&self, id: &str) -> (r: Option<&App>)
        ensures
            match r {
                Option::Some(a) => self.spec_has_id(id@) && a.id@ == id@,
                Option::None => !self.spec_has_id(id@),
            },
    {
        match self.find_by_id_index(id) {
            Option::Some(i) => Option::Some(&self.apps[i]),
            Option::None => Option::None,
        }
    }

    /// Resolve an app by its public key, as the WebSocket handshake does.
    pub fn find_by_key(&self, key: &str) -> (r: Option<&App>)
        ensures
            match r {
                Option::Some(a) => self.spec_has_key(key@) && a.key@ == key@,
                Option::None => !self.spec_has_key(key@),
            },
    {
        match self.find_by_key_index(key) {
            Option::Some(i) => Option::Some(&self.apps[i]),
            Option::None => Option::None,
        }
    }
}

} // verus!
