//! Capability grants: who may call which functions of a peer.

use vstd::prelude::*;
use vstd::std_specs::convert::FromSpecImpl;

verus! {

/// Number of bytes of a capability secret.
pub const CAP_SECRET_BYTES: usize = 64;

/// Number of bytes of an agent key.
pub const AGENT_KEY_BYTES: usize = 39;

/// A secret that whoever claims a capability has to show.
#[derive(Clone, Copy, Debug)]
pub struct CapSecret(pub [u8; 64]);

impl CapSecret {
    /// Whether the two secrets hold the same bytes. Looks at every byte,
    /// wherever the first difference lies.
    pub fn same_as(&self, other: &CapSecret) -> (r: bool)
        ensures
            r == (*self == *other),
    {
        let mut acc: u8 = 0;
        let mut i: usize = 0;
        while i < 64
            invariant
                i <= 64,
                (acc == 0) <==> (forall|k: int| 0 <= k < i ==> self.0[k] == other.0[k]),
            decreases 64 - i,
        {
            let x = self.0[i];
            let y = other.0[i];
            let ghost before = acc;
            assert(((before | (x ^ y)) == 0) <==> (before == 0 && x == y)) by (bit_vector);
            acc = acc | (x ^ y);
            i = i + 1;
        }
        proof {
            if acc == 0 {
                assert(self.0 =~= other.0);
            }
        }
        acc == 0
    }
}

/// The public key by which an agent is known.
#[derive(Clone, Copy, Debug)]
pub struct AgentPubKey(pub [u8; 39]);

impl AgentPubKey {
    /// Whether the two keys hold the same bytes.
    pub fn same_as(&self, other: &AgentPubKey) -> (r: bool)
        ensures
            r == (*self == *other),
    {
        let mut i: usize = 0;
        while i < 39
            invariant
                i <= 39,
                forall|k: int| 0 <= k < i ==> self.0[k] == other.0[k],
            decreases 39 - i,
        {
            if self.0[i] != other.0[i] {
                return false;
            }
            i = i + 1;
        }
        proof {
            assert(self.0 =~= other.0);
        }
        true
    }
}

/// The name of a zome.
#[derive(Clone, Debug)]
pub struct ZomeName(pub String);

/// The name of a function of a zome.
#[derive(Clone, Debug)]
pub struct FunctionName(pub String);

/// A function of a zome.
pub type GrantedFunction = (ZomeName, FunctionName);

/// The two names of a function, as text.
pub open spec fn function_key(f: GrantedFunction) -> (Seq<char>, Seq<char>) {
    (f.0.0@, f.1.0@)
}

/// A set of functions.
#[derive(Clone, Debug)]
pub struct GrantedFunctions {
    items: Vec<GrantedFunction>,
}

impl View for GrantedFunctions {
    type V = Set<(Seq<char>, Seq<char>)>;

    /// The names of the functions in the set.
    closed spec fn view(&self) -> Set<(Seq<char>, Seq<char>)> {
        Set::new(
            |k: (Seq<char>, Seq<char>)|
                exists|i: int| 0 <= i < self.items@.len() && function_key(#[trigger] self.items@[i]) == k,
        )
    }
}

impl GrantedFunctions {
    /// No function is kept twice.
    pub closed spec fn wf(&self) -> bool {
        forall|i: int, j: int|
            0 <= i < j < self.items@.len() ==> function_key(#[trigger] self.items@[i])
                != function_key(#[trigger] self.items@[j])
    }

    /// The empty set.
    pub fn new() -> (r: GrantedFunctions)
        ensures
            r.wf(),
            r@ == Set::<(Seq<char>, Seq<char>)>::empty(),
    {
        let r = GrantedFunctions { items: Vec::new() };
        assert(r@ =~= Set::<(Seq<char>, Seq<char>)>::empty());
        r
    }

    /// Whether the function is in the set.
    pub fn contains(&self, f: &GrantedFunction) -> (r: bool)
        ensures
            r == self@.contains(function_key(*f)),
    {
        let mut i: usize = 0;
        while i < self.items.len()
            invariant
                i <= self.items@.len(),
                forall|k: int| 0 <= k < i ==> function_key(#[trigger] self.items@[k]) != function_key(*f),
            decreases self.items@.len() - i,
        {
            if self.items[i].0.0 == f.0.0 && self.items[i].1.0 == f.1.0 {
                assert(function_key(self.items@[i as int]) == function_key(*f));
                return true;
            }
            i = i + 1;
        }
        false
    }

    /// The functions in the set, each once.
    pub fn as_vec(&self) -> (r: &Vec<GrantedFunction>)
        ensures
            forall|k: (Seq<char>, Seq<char>)|
                self@.contains(k) <==> exists|i: int|
                    0 <= i < r@.len() && function_key(#[trigger] r@[i]) == k,
            self.wf() ==> forall|i: int, j: int|
                0 <= i < j < r@.len() ==> function_key(#[trigger] r@[i]) != function_key(
                    #[trigger] r@[j],
                ),
    {
        &self.items
    }

    /// Puts the function into the set. Returns whether it was new to it.
    pub fn insert(&mut self, f: GrantedFunction) -> (r: bool)
        requires
            old(self).wf(),
        ensures
            final(self).wf(),
            final(self)@ == old(self)@.insert(function_key(f)),
            r == !old(self)@.contains(function_key(f)),
    {
        if self.contains(&f) {
            assert(self@ =~= self@.insert(function_key(f)));
            false
        } else {
            let ghost before = self.items@;
            self.items.push(f);
            proof {
                assert forall|k: (Seq<char>, Seq<char>)|
                    self@.contains(k) <==> old(self)@.insert(function_key(f)).contains(k) by {
                    if old(self)@.contains(k) {
                        let i = choose|i: int|
                            0 <= i < before.len() && function_key(#[trigger] before[i]) == k;
                        assert(function_key(self.items@[i]) == k);
                    }
                    if k == function_key(f) {
                        assert(function_key(self.items@[before.len() as int]) == k);
                    }
                    if self@.contains(k) {
                        let i = choose|i: int|
                            0 <= i < self.items@.len() && function_key(#[trigger] self.items@[i])
                                == k;
                        if i < before.len() {
                            assert(function_key(before[i]) == k);
                        }
                    }
                }
                assert(self@ =~= old(self)@.insert(function_key(f)));
                assert forall|i: int, j: int| 0 <= i < j < self.items@.len() implies function_key(
                    #[trigger] self.items@[i],
                ) != function_key(#[trigger] self.items@[j]) by {
                    if j < before.len() {
                        assert(function_key(before[i]) != function_key(before[j]));
                    } else {
                        assert(function_key(before[i]) != function_key(f));
                    }
                }
            }
            true
        }
    }
}

/// A set of agents.
#[derive(Clone, Debug)]
pub struct Assignees {
    items: Vec<AgentPubKey>,
}

impl View for Assignees {
    type V = Set<AgentPubKey>;

    /// The agents in the set.
    closed spec fn view(&self) -> Set<AgentPubKey> {
        Set::new(|a: AgentPubKey| exists|i: int| 0 <= i < self.items@.len() && #[trigger] self.items@[i] == a)
    }
}

impl Assignees {
    /// No agent is kept twice.
    pub closed spec fn wf(&self) -> bool {
        forall|i: int, j: int|
            0 <= i < j < self.items@.len() ==> #[trigger] self.items@[i] != #[trigger] self.items@[j]
    }

    /// The empty set.
    pub fn new() -> (r: Assignees)
        ensures
            r.wf(),
            r@ == Set::<AgentPubKey>::empty(),
    {
        let r = Assignees { items: Vec::new() };
        assert(r@ =~= Set::<AgentPubKey>::empty());
        r
    }

    /// Whether the agent is in the set.
    pub fn contains(&self, agent: &AgentPubKey) -> (r: bool)
        ensures
            r == self@.contains(*agent),
    {
        let mut i: usize = 0;
        while i < self.items.len()
            invariant
                i <= self.items@.len(),
                forall|k: int| 0 <= k < i ==> #[trigger] self.items@[k] != *agent,
            decreases self.items@.len() - i,
        {
            if self.items[i].same_as(agent) {
                assert(self.items@[i as int] == *agent);
                return true;
            }
            i = i + 1;
        }
        false
    }

    /// The agents in the set, each once.
    pub fn as_vec(&self) -> (r: &Vec<AgentPubKey>)
        ensures
            forall|a: AgentPubKey| self@.contains(a) <==> r@.contains(a),
            self.wf() ==> r@.no_duplicates(),
    {
        assert forall|a: AgentPubKey| self@.contains(a) <==> self.items@.contains(a) by {
            if self@.contains(a) {
                let i = choose|i: int| 0 <= i < self.items@.len() && #[trigger] self.items@[i] == a;
                assert(self.items@[i] == a);
            }
            if self.items@.contains(a) {
                let i = choose|i: int| 0 <= i < self.items@.len() && self.items@[i] == a;
                assert(self.items@[i] == a);
            }
        }
        &self.items
    }

    /// Puts the agent into the set. Returns whether it was new to it.
    pub fn insert(&mut self, agent: AgentPubKey) -> (r: bool)
        requires
            old(self).wf(),
        ensures
            final(self).wf(),
            final(self)@ == old(self)@.insert(agent),
            r == !old(self)@.contains(agent),
    {
        if self.contains(&agent) {
            assert(self@ =~= self@.insert(agent));
            false
        } else {
            let ghost before = self.items@;
            self.items.push(agent);
            proof {
                assert forall|k: AgentPubKey|
                    self@.contains(k) <==> old(self)@.insert(agent).contains(k) by {
                    if old(self)@.contains(k) {
                        let i = choose|i: int| 0 <= i < before.len() && #[trigger] before[i] == k;
                        assert(self.items@[i] == k);
                    }
                    if k == agent {
                        assert(self.items@[before.len() as int] == k);
                    }
                    if self@.contains(k) {
                        let i = choose|i: int|
                            0 <= i < self.items@.len() && #[trigger] self.items@[i] == k;
                        if i < before.len() {
                            assert(before[i] == k);
                        }
                    }
                }
                assert(self@ =~= old(self)@.insert(agent));
                assert forall|i: int, j: int| 0 <= i < j < self.items@.len() implies (
                #[trigger] self.items@[i]) != #[trigger] self.items@[j] by {
                    if j < before.len() {
                        assert(before[i] != before[j]);
                    } else {
                        assert(before[i] != agent);
                    }
                }
            }
            true
        }
    }
}

/// What a claimant has to show for a capability.
#[derive(Clone, Debug)]
pub enum CapAccess {
    /// Nothing: open to anyone.
    Unrestricted,
    /// The secret.
    Transferable {
        /// The secret.
        secret: CapSecret,
    },
    /// The secret, and to be one of the assignees.
    Assigned {
        /// The secret.
        secret: CapSecret,
        /// The agents who may use the grant.
        assignees: Assignees,
    },
}

impl CapAccess {
    /// Whether access is open to `agent` showing `secret`.
    pub open spec fn authorizes(self, agent: AgentPubKey, secret: Option<CapSecret>) -> bool {
        match self {
            CapAccess::Unrestricted => true,
            CapAccess::Transferable { secret: own } => secret == Some(own),
            CapAccess::Assigned { secret: own, assignees } => secret == Some(own)
                && assignees@.contains(agent),
        }
    }

    /// Whether `agent` may be granted access at all, whatever the secret.
    pub open spec fn admits(self, agent: AgentPubKey) -> bool {
        match self {
            CapAccess::Assigned { assignees, .. } => assignees@.contains(agent),
            _ => true,
        }
    }

    /// Whether `secret` is the one that access asks for, if it asks for one.
    pub open spec fn opens_with(self, secret: CapSecret) -> bool {
        match self {
            CapAccess::Unrestricted => true,
            CapAccess::Transferable { secret: own } => own == secret,
            CapAccess::Assigned { secret: own, .. } => own == secret,
        }
    }

    /// Access for the one assignee, if they show the secret.
    pub fn assigned_to(secret: CapSecret, assignee: AgentPubKey) -> (r: CapAccess)
        ensures
            r matches CapAccess::Assigned { secret: s, assignees } && s == secret && assignees.wf()
                && assignees@ == Set::<AgentPubKey>::empty().insert(assignee),
    {
        let mut assignees = Assignees::new();
        assignees.insert(assignee);
        CapAccess::Assigned { secret, assignees }
    }

    /// Whether access is granted to `agent_key` showing `maybe_secret`.
    pub fn is_authorized(&self, agent_key: &AgentPubKey, maybe_secret: Option<&CapSecret>) -> (r:
        bool)
        ensures
            r == self.authorizes(
                *agent_key,
                match maybe_secret {
                    Some(s) => Some(*s),
                    None => None,
                },
            ),
    {
        match self {
            CapAccess::Unrestricted => true,
            CapAccess::Transferable { secret } => match maybe_secret {
                Some(shown) => secret.same_as(shown),
                None => false,
            },
            CapAccess::Assigned { secret, assignees } => match maybe_secret {
                Some(shown) => secret.same_as(shown) && assignees.contains(agent_key),
                None => false,
            },
        }
    }

    /// The secret that access asks for, if it asks for one.
    pub fn secret(&self) -> (r: Option<&CapSecret>)
        ensures
            match *self {
                CapAccess::Unrestricted => r.is_none(),
                CapAccess::Transferable { secret } => r == Some(&secret),
                CapAccess::Assigned { secret, .. } => r == Some(&secret),
            },
    {
        match self {
            CapAccess::Transferable { secret } => Some(secret),
            CapAccess::Assigned { secret, .. } => Some(secret),
            CapAccess::Unrestricted => None,
        }
    }
}

impl From<()> for CapAccess {
    /// Access open to anyone.
    fn from(_unit: ()) -> (r: CapAccess) {
        CapAccess::Unrestricted
    }
}

impl FromSpecImpl<()> for CapAccess {
    open spec fn obeys_from_spec() -> bool {
        true
    }

    open spec fn from_spec(_unit: ()) -> CapAccess {
        CapAccess::Unrestricted
    }
}

impl From<CapSecret> for CapAccess {
    /// Access for whoever shows the secret.
    fn from(secret: CapSecret) -> (r: CapAccess) {
        CapAccess::Transferable { secret }
    }
}

impl FromSpecImpl<CapSecret> for CapAccess {
    open spec fn obeys_from_spec() -> bool {
        true
    }

    open spec fn from_spec(secret: CapSecret) -> CapAccess {
        CapAccess::Transferable { secret }
    }
}

impl From<(CapSecret, Assignees)> for CapAccess {
    /// Access for those of the assignees who show the secret.
    fn from(pair: (CapSecret, Assignees)) -> (r: CapAccess) {
        CapAccess::Assigned { secret: pair.0, assignees: pair.1 }
    }
}

impl FromSpecImpl<(CapSecret, Assignees)> for CapAccess {
    open spec fn obeys_from_spec() -> bool {
        true
    }

    open spec fn from_spec(pair: (CapSecret, Assignees)) -> CapAccess {
        CapAccess::Assigned { secret: pair.0, assignees: pair.1 }
    }
}

/// A grant of access to functions of zomes.
#[derive(Clone, Debug)]
pub struct ZomeCallCapGrant {
    /// A word by which to find the grant again. More than one grant may carry it.
    pub tag: String,
    /// Who may use the grant, and by what means.
    pub access: CapAccess,
    /// The functions that the grant opens.
    pub functions: GrantedFunctions,
}

impl ZomeCallCapGrant {
    /// The grant of `functions` on the terms of `access`, to be found under `tag`.
    pub fn new(tag: String, access: CapAccess, functions: GrantedFunctions) -> (r:
        ZomeCallCapGrant)
        ensures
            r.tag == tag,
            r.access == access,
            r.functions == functions,
    {
        ZomeCallCapGrant { tag, access, functions }
    }
}

/// A capability that a peer grants.
#[derive(Clone, Debug)]
pub enum CapGrant {
    /// The author of a source chain may write to it.
    Authorship(AgentPubKey),
    /// Access to functions of zomes.
    ZomeCall(ZomeCallCapGrant),
}

impl From<AgentPubKey> for CapGrant {
    /// The grant of authorship to `agent`.
    fn from(agent: AgentPubKey) -> (r: CapGrant) {
        CapGrant::Authorship(agent)
    }
}

impl FromSpecImpl<AgentPubKey> for CapGrant {
    open spec fn obeys_from_spec() -> bool {
        true
    }

    open spec fn from_spec(agent: AgentPubKey) -> CapGrant {
        CapGrant::Authorship(agent)
    }
}

impl From<ZomeCallCapGrant> for CapGrant {
    /// The grant of access to functions of zomes.
    fn from(grant: ZomeCallCapGrant) -> (r: CapGrant) {
        CapGrant::ZomeCall(grant)
    }
}

impl FromSpecImpl<ZomeCallCapGrant> for CapGrant {
    open spec fn obeys_from_spec() -> bool {
        true
    }

    open spec fn from_spec(grant: ZomeCallCapGrant) -> CapGrant {
        CapGrant::ZomeCall(grant)
    }
}

impl CapGrant {
    /// Whether the grant, taken by itself, lets `agent` showing `secret` call `function`.
    pub open spec fn permits(
        self,
        function: GrantedFunction,
        agent: AgentPubKey,
        secret: CapSecret,
    ) -> bool {
        match self {
            CapGrant::Authorship(author) => author == agent,
            CapGrant::ZomeCall(grant) => grant.functions@.contains(function_key(function))
                && grant.access.admits(agent) && grant.access.opens_with(secret),
        }
    }

    /// Whether the grant carries the tag `query`. A grant of authorship carries none.
    pub fn tag_matches(&self, query: &str) -> (r: bool)
        ensures
            r == match *self {
                CapGrant::Authorship(_) => false,
                CapGrant::ZomeCall(grant) => grant.tag@ == query@,
            },
    {
        match self {
            CapGrant::Authorship(_) => false,
            CapGrant::ZomeCall(grant) => {
                let wanted = query.to_owned();
                grant.tag == wanted
            },
        }
    }

    /// Whether the grant, taken by itself, lets `check_agent` showing
    /// `check_secret` call `check_function`.
    pub fn is_valid(
        &self,
        check_function: &GrantedFunction,
        check_agent: &AgentPubKey,
        check_secret: &CapSecret,
    ) -> (r: bool)
        ensures
            r == self.permits(*check_function, *check_agent, *check_secret),
    {
        match self {
            CapGrant::Authorship(author) => author.same_as(check_agent),
            CapGrant::ZomeCall(grant) => {
                grant.functions.contains(check_function) && match &grant.access {
                    CapAccess::Assigned { assignees, .. } => assignees.contains(check_agent),
                    _ => true,
                } && match &grant.access {
                    CapAccess::Unrestricted => true,
                    CapAccess::Transferable { secret } => secret.same_as(check_secret),
                    CapAccess::Assigned { secret, .. } => secret.same_as(check_secret),
                }
            },
        }
    }
}

} // verus!
