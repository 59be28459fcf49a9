//! ERC-20 balance changes of a simulated call, read from its logs.

use vstd::prelude::*;
use vstd::string::StringSliceAdditionalSpecFns;
use crate::abi::{keccak256, spec_keccak256};
use crate::address::{Address, lemma_address_eq_view};
use crate::quoter::{spec_weth, weth_address};
use crate::uint::{I256, U256, fits_i256, i256_checked_add, i256_checked_sub, signed_value};
use vstd::set::fold::{is_fun_commutative, lemma_fold_empty, lemma_fold_insert};
use vstd::seq_lib::group_to_multiset_ensures;

verus! {

/// Signature of the ERC-20 `Transfer` event.
pub const TRANSFER_EVENT: &'static str = "Transfer(address,address,uint256)";

/// Signature of the WETH `Deposit` event.
pub const DEPOSIT_EVENT: &'static str = "Deposit(address,uint256)";

/// Signature of the WETH `Withdrawal` event.
pub const WITHDRAWAL_EVENT: &'static str = "Withdrawal(address,uint256)";

/// A log emitted by a simulated call: the emitting contract, the topics and
/// the data.
#[derive(Clone, Debug)]
pub struct LogEntry {
    pub address: Address,
    pub topics: Vec<[u8; 32]>,
    pub data: Vec<u8>,
}

/// A movement of `value` of `token` from `from` to `to`, by byte views.
pub struct Movement {
    pub from: Seq<u8>,
    pub to: Seq<u8>,
    pub token: Seq<u8>,
    pub value: Seq<u8>,
}

/// The address held in the low 20 bytes of an indexed topic.
pub open spec fn topic_address(topic: [u8; 32]) -> Seq<u8> {
    topic@.subrange(12, 32)
}

/// The log is the event with the given signature: exactly `n_topics`
/// topics, the first being the signature's hash, and at least one data word.
pub open spec fn event_matches(log: LogEntry, signature: Seq<u8>, n_topics: int) -> bool {
    &&& log.topics@.len() == n_topics
    &&& log.topics@[0]@ == spec_keccak256(signature)
    &&& log.data@.len() >= 32
}

/// The movement that a log records: a `Transfer` from any token, or a WETH
/// `Deposit` (from the WETH contract) or `Withdrawal` (to it).
pub open spec fn spec_log_movement(log: LogEntry) -> Option<Movement> {
    let value = log.data@.take(32);
    if event_matches(log, TRANSFER_EVENT.spec_bytes(), 3) {
        Some(
            Movement {
                from: topic_address(log.topics@[1]),
                to: topic_address(log.topics@[2]),
                token: log.address@,
                value,
            },
        )
    } else if log.address@ == spec_weth() && event_matches(log, DEPOSIT_EVENT.spec_bytes(), 2) {
        Some(
            Movement {
                from: spec_weth(),
                to: topic_address(log.topics@[1]),
                token: log.address@,
                value,
            },
        )
    } else if log.address@ == spec_weth() && event_matches(log, WITHDRAWAL_EVENT.spec_bytes(), 2) {
        Some(
            Movement {
                from: topic_address(log.topics@[1]),
                to: spec_weth(),
                token: log.address@,
                value,
            },
        )
    } else {
        None
    }
}

/// The movements that the logs record, in order.
pub open spec fn log_movements(logs: Seq<LogEntry>) -> Seq<Movement>
    decreases logs.len(),
{
    if logs.len() == 0 {
        Seq::empty()
    } else {
        let earlier = log_movements(logs.drop_last());
        match spec_log_movement(logs.last()) {
            Some(m) => earlier.push(m),
            None => earlier,
        }
    }
}

/// The change recorded for `k`, zero when none is.
pub open spec fn change_at(m: Map<(Seq<u8>, Seq<u8>), int>, k: (Seq<u8>, Seq<u8>)) -> int {
    if m.dom().contains(k) {
        m[k]
    } else {
        0
    }
}

/// The changes after the sender loses and then the receiver gains the
/// signed value of a movement.
pub open spec fn apply_movement(m: Map<(Seq<u8>, Seq<u8>), int>, mv: Movement) -> Map<
    (Seq<u8>, Seq<u8>),
    int,
> {
    let v = signed_value(mv.value);
    let m1 = m.insert((mv.from, mv.token), change_at(m, (mv.from, mv.token)) - v);
    m1.insert((mv.to, mv.token), change_at(m1, (mv.to, mv.token)) + v)
}

/// Both steps of applying the movement stay within the signed 256-bit range.
pub open spec fn movement_fits(m: Map<(Seq<u8>, Seq<u8>), int>, mv: Movement) -> bool {
    let v = signed_value(mv.value);
    let m1 = m.insert((mv.from, mv.token), change_at(m, (mv.from, mv.token)) - v);
    &&& fits_i256(change_at(m, (mv.from, mv.token)) - v)
    &&& fits_i256(change_at(m1, (mv.to, mv.token)) + v)
}

/// The balance change of each (owner, token) pair after the movements.
pub open spec fn spec_balances(mvs: Seq<Movement>) -> Map<(Seq<u8>, Seq<u8>), int>
    decreases mvs.len(),
{
    if mvs.len() == 0 {
        Map::empty()
    } else {
        apply_movement(spec_balances(mvs.drop_last()), mvs.last())
    }
}

/// Every step of applying the movements stays within range.
pub open spec fn movements_fit(mvs: Seq<Movement>) -> bool
    decreases mvs.len(),
{
    if mvs.len() == 0 {
        true
    } else {
        movements_fit(mvs.drop_last()) && movement_fits(spec_balances(mvs.drop_last()), mvs.last())
    }
}

/// Some change is recorded for `owner`, in some token.
pub open spec fn owner_has_changes(m: Map<(Seq<u8>, Seq<u8>), int>, owner: Seq<u8>) -> bool {
    exists|t: Seq<u8>| m.dom().contains((owner, t))
}

/// The balance change of one owner in one token.
#[derive(Clone, Copy, Debug)]
pub struct BalanceEntry {
    pub owner: Address,
    pub token: Address,
    pub change: I256,
}

/// Balance changes by owner and token.
pub struct BalanceChanges {
    entries: Vec<BalanceEntry>,
    model: Ghost<Map<(Seq<u8>, Seq<u8>), int>>,
}

/// The key of an entry.
pub open spec fn entry_key(e: BalanceEntry) -> (Seq<u8>, Seq<u8>) {
    (e.owner@, e.token@)
}

impl View for BalanceChanges {
    type V = Map<(Seq<u8>, Seq<u8>), int>;

    closed spec fn view(&self) -> Map<(Seq<u8>, Seq<u8>), int> {
        self.model@
    }
}

impl BalanceChanges {
    /// Each key is held by exactly one entry, which holds its change.
    #[verifier::type_invariant]
    spec fn wf(&self) -> bool {
        &&& forall|i: int, j: int|
            0 <= i < j < self.entries@.len() ==> entry_key(#[trigger] self.entries@[i]) != entry_key(
                #[trigger] self.entries@[j],
            )
        &&& forall|i: int|
            0 <= i < self.entries@.len() ==> self.model@.dom().contains(
                entry_key(#[trigger] self.entries@[i]),
            ) && self.model@[entry_key(self.entries@[i])] == self.entries@[i].change.value()
        &&& forall|k: (Seq<u8>, Seq<u8>)|
            #[trigger] self.model@.dom().contains(k) ==> exists|i: int|
                0 <= i < self.entries@.len() && entry_key(self.entries@[i]) == k
    }

    /// No change recorded.
    pub fn new() -> (r: Self)
        ensures
            r@ == Map::<(Seq<u8>, Seq<u8>), int>::empty(),
    {
        BalanceChanges { entries: Vec::new(), model: Ghost(Map::empty()) }
    }

    /// The position of the entry of (`owner`, `token`), if any.
    fn find(&self, owner: Address, token: Address) -> (r: Option<usize>)
        ensures
            r matches Some(i) ==> i < self.entries@.len() && entry_key(self.entries@[i as int]) == (
                owner@,
                token@,
            ) && self@.dom().contains((owner@, token@)) && self@[(owner@, token@)]
                == self.entries@[i as int].change.value(),
            r is None ==> !self@.dom().contains((owner@, token@)),
    {
        proof {
            use_type_invariant(self);
        }
        let mut i: usize = 0;
        while i < self.entries.len()
            invariant
                i <= self.entries@.len(),
                forall|j: int| 0 <= j < i ==> entry_key(#[trigger] self.entries@[j]) != (owner@, token@),
            decreases self.entries.len() - i,
        {
            let e = self.entries[i];
            proof {
                lemma_address_eq_view(e.owner, owner);
                lemma_address_eq_view(e.token, token);
            }
            if e.owner == owner && e.token == token {
                proof {
                    use_type_invariant(self);
                }
                return Some(i);
            }
            i = i + 1;
        }
        None
    }

    /// The change recorded for `owner` in `token`, if one is.
    pub fn change_of(&self, owner: Address, token: Address) -> (r: Option<I256>)
        ensures
            r is Some <==> self@.dom().contains((owner@, token@)),
            r matches Some(c) ==> c.value() == self@[(owner@, token@)],
    {
        match self.find(owner, token) {
            Some(i) => Some(self.entries[i].change),
            None => None,
        }
    }

    /// Whether a change is recorded for `owner` in some token.
    pub fn has_changes_for(&self, owner: Address) -> (r: bool)
        ensures
            r == owner_has_changes(self@, owner@),
    {
        proof {
            use_type_invariant(self);
        }
        let mut i: usize = 0;
        while i < self.entries.len()
            invariant
                i <= self.entries@.len(),
                forall|j: int| 0 <= j < i ==> (#[trigger] self.entries@[j]).owner@ != owner@,
            decreases self.entries.len() - i,
        {
            let e = self.entries[i];
            proof {
                lemma_address_eq_view(e.owner, owner);
            }
            if e.owner == owner {
                proof {
                    use_type_invariant(self);
                }
                assert(self@.dom().contains((owner@, e.token@)));
                return true;
            }
            i = i + 1;
        }
        proof {
            use_type_invariant(self);
            if exists|t: Seq<u8>| self@.dom().contains((owner@, t)) {
                let t = choose|t: Seq<u8>| self@.dom().contains((owner@, t));
                let j = choose|j: int|
                    0 <= j < self.entries@.len() && entry_key(self.entries@[j]) == (owner@, t);
                assert(self.entries@[j].owner@ == owner@);
            }
        }
        false
    }

    /// Subtracts `delta` from the change of (`owner`, `token`), or adds it
    /// when `add`, starting from zero when none is recorded. Returns false,
    /// leaving the changes as they were, when the result leaves the signed
    /// 256-bit range.
    fn adjust(&mut self, owner: Address, token: Address, delta: I256, add: bool) -> (ok: bool)
        ensures
            ok == fits_i256(
                if add {
                    change_at(old(self)@, (owner@, token@)) + delta.value()
                } else {
                    change_at(old(self)@, (owner@, token@)) - delta.value()
                },
            ),
            ok ==> final(self)@ == old(self)@.insert(
                (owner@, token@),
                if add {
                    change_at(old(self)@, (owner@, token@)) + delta.value()
                } else {
                    change_at(old(self)@, (owner@, token@)) - delta.value()
                },
            ),
            !ok ==> final(self)@ == old(self)@,
    {
        let ghost k = (owner@, token@);
        let pos = self.find(owner, token);
        let current = match pos {
            Some(i) => self.entries[i].change,
            None => I256::zero(),
        };
        let next = if add {
            i256_checked_add(current, delta)
        } else {
            i256_checked_sub(current, delta)
        };
        let next = match next {
            Some(v) => v,
            None => return false,
        };
        let mut this = BalanceChanges::new();
        std::mem::swap(self, &mut this);
        proof {
            use_type_invariant(&this);
        }
        let BalanceChanges { mut entries, model } = this;
        let ghost old_entries = entries@;
        let ghost old_model = model@;
        let ghost new_model = old_model.insert(k, next.value());
        match pos {
            Some(i) => {
                let entry = entries[i];
                entries.set(i, BalanceEntry { owner: entry.owner, token: entry.token, change: next });
                proof {
                    assert forall|a: int, b: int|
                        0 <= a < b < entries@.len() implies entry_key(#[trigger] entries@[a])
                        != entry_key(#[trigger] entries@[b]) by {
                        assert(entry_key(old_entries[a]) != entry_key(old_entries[b]));
                    }
                    assert forall|a: int| 0 <= a < entries@.len() implies new_model.dom().contains(
                        entry_key(#[trigger] entries@[a]),
                    ) && new_model[entry_key(entries@[a])] == entries@[a].change.value() by {
                        if a != i {
                            assert(entry_key(old_entries[a]) != entry_key(old_entries[i as int]));
                            assert(old_model.dom().contains(entry_key(old_entries[a])));
                        }
                    }
                    assert forall|kk: (Seq<u8>, Seq<u8>)| #[trigger] new_model.dom().contains(kk) implies exists|
                        a: int,
                    |
                        0 <= a < entries@.len() && entry_key(entries@[a]) == kk by {
                        if kk == k {
                            assert(entry_key(entries@[i as int]) == kk);
                        } else {
                            let a = choose|a: int|
                                0 <= a < old_entries.len() && entry_key(old_entries[a]) == kk;
                            assert(entry_key(entries@[a]) == kk);
                        }
                    }
                }
            },
            None => {
                entries.push(BalanceEntry { owner, token, change: next });
                proof {
                    assert forall|a: int, b: int|
                        0 <= a < b < entries@.len() implies entry_key(#[trigger] entries@[a])
                        != entry_key(#[trigger] entries@[b]) by {
                        if b < old_entries.len() {
                            assert(entry_key(old_entries[a]) != entry_key(old_entries[b]));
                        } else {
                            assert(old_model.dom().contains(entry_key(old_entries[a])));
                        }
                    }
                    assert forall|a: int| 0 <= a < entries@.len() implies new_model.dom().contains(
                        entry_key(#[trigger] entries@[a]),
                    ) && new_model[entry_key(entries@[a])] == entries@[a].change.value() by {
                        if a < old_entries.len() {
                            assert(old_model.dom().contains(entry_key(old_entries[a])));
                            assert(entries@[a] == old_entries[a]);
                        }
                    }
                    assert forall|kk: (Seq<u8>, Seq<u8>)| #[trigger] new_model.dom().contains(kk) implies exists|
                        a: int,
                    |
                        0 <= a < entries@.len() && entry_key(entries@[a]) == kk by {
                        if kk == k {
                            assert(entry_key(entries@[old_entries.len() as int]) == kk);
                        } else {
                            let a = choose|a: int|
                                0 <= a < old_entries.len() && entry_key(old_entries[a]) == kk;
                            assert(entry_key(entries@[a]) == kk);
                        }
                    }
                }
            },
        }
        assert(forall|a: int, b: int|
            0 <= a < b < entries@.len() ==> entry_key(#[trigger] entries@[a]) != entry_key(
                #[trigger] entries@[b],
            ));
        assert(forall|a: int|
            0 <= a < entries@.len() ==> new_model.dom().contains(entry_key(#[trigger] entries@[a]))
                && new_model[entry_key(entries@[a])] == entries@[a].change.value());
        assert(forall|kk: (Seq<u8>, Seq<u8>)|
            #[trigger] new_model.dom().contains(kk) ==> exists|a: int|
                0 <= a < entries@.len() && entry_key(entries@[a]) == kk);
        let model_out: Ghost<Map<(Seq<u8>, Seq<u8>), int>> = Ghost(new_model);
        let ghost r = BalanceChanges { entries: entries, model: model_out };
        assert(r.entries@ == entries@);
        assert(r.model@ == new_model);
        assert(r.wf());
        let result = BalanceChanges { entries, model: model_out };
        *self = result;
        true
    }

    /// Records `value` of `token` moving from `from` to `to`: the sender's
    /// change goes down, then the receiver's goes up, by the value read as
    /// a signed number. Returns false when either step leaves the signed
    /// 256-bit range.
    pub fn update_balance_changes(&mut self, from: Address, to: Address, token: Address, value: U256) -> (ok: bool)
        ensures
            ok == movement_fits(old(self)@, Movement { from: from@, to: to@, token: token@, value: value@ }),
            ok ==> final(self)@ == apply_movement(
                old(self)@,
                Movement { from: from@, to: to@, token: token@, value: value@ },
            ),
    {
        let change = I256::from_raw(value);
        if !self.adjust(from, token, change, false) {
            return false;
        }
        self.adjust(to, token, change, true)
    }
}

/// The outcome of a simulated call: whether it succeeded, the gas it used
/// and the logs it emitted.
#[derive(Clone, Debug)]
pub struct SimCall {
    pub status: bool,
    pub gas_used: u64,
    pub logs: Vec<LogEntry>,
}

/// A movement of `value` of `token` from `from` to `to`.
#[derive(Clone, Copy, Debug)]
pub struct TokenMovement {
    pub from: Address,
    pub to: Address,
    pub token: Address,
    pub value: U256,
}

impl TokenMovement {
    /// The movement by byte views.
    pub open spec fn spec_movement(self) -> Movement {
        Movement { from: self.from@, to: self.to@, token: self.token@, value: self.value@ }
    }
}

/// The hashes of the three event signatures.
struct EventHashes {
    transfer: [u8; 32],
    deposit: [u8; 32],
    withdrawal: [u8; 32],
}

impl EventHashes {
    spec fn correct(&self) -> bool {
        &&& self.transfer@ == spec_keccak256(TRANSFER_EVENT.spec_bytes())
        &&& self.deposit@ == spec_keccak256(DEPOSIT_EVENT.spec_bytes())
        &&& self.withdrawal@ == spec_keccak256(WITHDRAWAL_EVENT.spec_bytes())
    }

    fn new() -> (r: Self)
        ensures
            r.correct(),
    {
        EventHashes {
            transfer: keccak256(TRANSFER_EVENT.as_bytes()),
            deposit: keccak256(DEPOSIT_EVENT.as_bytes()),
            withdrawal: keccak256(WITHDRAWAL_EVENT.as_bytes()),
        }
    }
}

/// Whether two words are equal.
fn same_word(a: &[u8; 32], b: &[u8; 32]) -> (r: bool)
    ensures
        r == (a@ == b@),
{
    let mut i: usize = 0;
    while i < 32
        invariant
            i <= 32,
            forall|j: int| 0 <= j < i ==> a@[j] == b@[j],
        decreases 32 - i,
    {
        if a[i] != b[i] {
            return false;
        }
        i = i + 1;
    }
    assert(a@ =~= b@);
    true
}

/// The address in the low 20 bytes of a topic.
fn address_from_topic(topic: &[u8; 32]) -> (r: Address)
    ensures
        r@ == topic_address(*topic),
{
    let mut bytes = [0u8; 20];
    let mut i: usize = 0;
    while i < 20
        invariant
            i <= 20,
            forall|j: int| 0 <= j < i ==> bytes@[j] == topic@[j + 12],
        decreases 20 - i,
    {
        bytes[i] = topic[i + 12];
        i = i + 1;
    }
    let r = Address { bytes };
    assert(r@ =~= topic_address(*topic));
    r
}

/// The first 32 bytes of the data, as an unsigned number.
fn first_word(data: &Vec<u8>) -> (r: U256)
    requires
        data@.len() >= 32,
    ensures
        r@ == data@.take(32),
{
    let mut bytes = [0u8; 32];
    let mut i: usize = 0;
    while i < 32
        invariant
            i <= 32,
            data@.len() >= 32,
            forall|j: int| 0 <= j < i ==> bytes@[j] == data@[j],
        decreases 32 - i,
    {
        bytes[i] = data[i];
        i = i + 1;
    }
    let r = U256 { bytes };
    assert(r@ =~= data@.take(32));
    r
}

/// Whether the log is the event whose hash is `hash`, with `n_topics` topics.
fn matches_event(log: &LogEntry, hash: &[u8; 32], n_topics: usize) -> (r: bool)
    requires
        n_topics >= 1,
    ensures
        r == (log.topics@.len() == n_topics && log.topics@[0]@ == hash@ && log.data@.len() >= 32),
{
    log.topics.len() == n_topics && same_word(&log.topics[0], hash) && log.data.len() >= 32
}

/// The movement that a log records, if any.
fn log_movement(log: &LogEntry, hashes: &EventHashes, weth: Address) -> (r: Option<TokenMovement>)
    requires
        hashes.correct(),
        weth@ == spec_weth(),
    ensures
        r is Some <==> spec_log_movement(*log) is Some,
        r matches Some(m) ==> m.spec_movement() == spec_log_movement(*log).unwrap(),
{
    if matches_event(log, &hashes.transfer, 3) {
        return Some(
            TokenMovement {
                from: address_from_topic(&log.topics[1]),
                to: address_from_topic(&log.topics[2]),
                token: log.address,
                value: first_word(&log.data),
            },
        );
    }
    proof {
        lemma_address_eq_view(log.address, weth);
    }
    if log.address == weth {
        if matches_event(log, &hashes.deposit, 2) {
            return Some(
                TokenMovement {
                    from: weth,
                    to: address_from_topic(&log.topics[1]),
                    token: log.address,
                    value: first_word(&log.data),
                },
            );
        } else if matches_event(log, &hashes.withdrawal, 2) {
            return Some(
                TokenMovement {
                    from: address_from_topic(&log.topics[1]),
                    to: weth,
                    token: log.address,
                    value: first_word(&log.data),
                },
            );
        }
    }
    None
}

/// The movements of a prefix of the logs are those of the logs before it.
proof fn lemma_log_movements_step(logs: Seq<LogEntry>, i: int)
    requires
        0 <= i < logs.len(),
    ensures
        log_movements(logs.take(i + 1)) == match spec_log_movement(logs[i]) {
            Some(m) => log_movements(logs.take(i)).push(m),
            None => log_movements(logs.take(i)),
        },
{
    assert(logs.take(i + 1).drop_last() =~= logs.take(i));
    assert(logs.take(i + 1).last() == logs[i]);
}

/// If all the movements fit, so do those of any prefix of the logs.
proof fn lemma_fit_prefix(logs: Seq<LogEntry>, i: int)
    requires
        0 <= i <= logs.len(),
        movements_fit(log_movements(logs)),
    ensures
        movements_fit(log_movements(logs.take(i))),
    decreases logs.len(),
{
    if i == logs.len() {
        assert(logs.take(i) =~= logs);
    } else {
        let d = logs.drop_last();
        assert(movements_fit(log_movements(d))) by {
            match spec_log_movement(logs.last()) {
                Some(m) => {
                    assert(log_movements(d).push(m).drop_last() =~= log_movements(d));
                },
                None => {},
            }
        }
        lemma_fit_prefix(d, i);
        assert(d.take(i) =~= logs.take(i));
    }
}

/// The balance changes that the logs record, or `None` when a running total
/// leaves the signed 256-bit range.
fn handle_logs(logs: &Vec<LogEntry>) -> (r: Option<BalanceChanges>)
    ensures
        r is Some <==> movements_fit(log_movements(logs@)),
        r matches Some(b) ==> b@ == spec_balances(log_movements(logs@)),
{
    let hashes = EventHashes::new();
    let weth = weth_address();
    let mut balance_changes = BalanceChanges::new();
    let mut i: usize = 0;
    while i < logs.len()
        invariant
            i <= logs@.len(),
            hashes.correct(),
            weth@ == spec_weth(),
            movements_fit(log_movements(logs@.take(i as int))),
            balance_changes@ == spec_balances(log_movements(logs@.take(i as int))),
        decreases logs.len() - i,
    {
        let ghost before = log_movements(logs@.take(i as int));
        proof {
            lemma_log_movements_step(logs@, i as int);
        }
        match log_movement(&logs[i], &hashes, weth) {
            Some(m) => {
                let ok = balance_changes.update_balance_changes(m.from, m.to, m.token, m.value);
                proof {
                    let after = before.push(m.spec_movement());
                    assert(after.drop_last() =~= before);
                }
                if !ok {
                    proof {
                        if movements_fit(log_movements(logs@)) {
                            lemma_fit_prefix(logs@, i + 1);
                        }
                    }
                    return None;
                }
            },
            None => {},
        }
        i = i + 1;
    }
    proof {
        assert(logs@.take(i as int) =~= logs@);
    }
    Some(balance_changes)
}

/// The ERC-20 balance changes of a simulated call, by owner and token:
/// none when the call failed, otherwise those its logs record; `None` when
/// a running total leaves the signed 256-bit range.
pub fn try_calculate_erc20_balance_changes(call: &SimCall) -> (r: Option<BalanceChanges>)
    ensures
        r is Some <==> (!call.status || movements_fit(log_movements(call.logs@))),
        r matches Some(b) ==> b@ == (if call.status {
            spec_balances(log_movements(call.logs@))
        } else {
            Map::empty()
        }),
{
    if !call.status || call.logs.len() == 0 {
        proof {
            if call.logs@.len() == 0 {
                assert(log_movements(call.logs@) =~= Seq::<Movement>::empty());
            }
        }
        return Some(BalanceChanges::new());
    }
    handle_logs(&call.logs)
}

/// The ERC-20 balance changes of a simulated call, by owner and token:
/// none when the call failed, otherwise those its logs record.
pub fn calculate_erc20_balance_changes(call: &SimCall) -> (r: BalanceChanges)
    requires
        !call.status || movements_fit(log_movements(call.logs@)),
    ensures
        r@ == (if call.status {
            spec_balances(log_movements(call.logs@))
        } else {
            Map::empty()
        }),
{
    match try_calculate_erc20_balance_changes(call) {
        Some(b) => b,
        None => {
            assert(false);
            BalanceChanges::new()
        },
    }
}

/// One step of the total: the change of `k` counts when `k` is in `token`.
pub open spec fn total_step(m: Map<(Seq<u8>, Seq<u8>), int>, token: Seq<u8>) -> spec_fn(
    int,
    (Seq<u8>, Seq<u8>),
) -> int {
    |acc: int, k: (Seq<u8>, Seq<u8>)| acc + if k.1 == token {
        m[k]
    } else {
        0
    }
}

/// The sum of the changes recorded in `token`, over all owners.
pub open spec fn token_total(m: Map<(Seq<u8>, Seq<u8>), int>, token: Seq<u8>) -> int {
    m.dom().fold(0int, total_step(m, token))
}

proof fn lemma_total_step_commutative(m: Map<(Seq<u8>, Seq<u8>), int>, token: Seq<u8>)
    ensures
        is_fun_commutative(total_step(m, token)),
{
}

/// Two totals agree on a set where their changes agree.
proof fn lemma_fold_agree(
    s: Set<(Seq<u8>, Seq<u8>)>,
    m1: Map<(Seq<u8>, Seq<u8>), int>,
    m2: Map<(Seq<u8>, Seq<u8>), int>,
    token: Seq<u8>,
)
    requires
        s.finite(),
        forall|k: (Seq<u8>, Seq<u8>)| s.contains(k) && k.1 == token ==> m1[k] == m2[k],
    ensures
        s.fold(0int, total_step(m1, token)) == s.fold(0int, total_step(m2, token)),
    decreases s.len(),
{
    lemma_total_step_commutative(m1, token);
    lemma_total_step_commutative(m2, token);
    if s.len() == 0 {
        assert(s =~= Set::empty());
        lemma_fold_empty(0int, total_step(m1, token));
        lemma_fold_empty(0int, total_step(m2, token));
    } else {
        let a = s.choose();
        let r = s.remove(a);
        assert(r.insert(a) =~= s);
        lemma_fold_agree(r, m1, m2, token);
        lemma_fold_insert(r, 0int, total_step(m1, token), a);
        lemma_fold_insert(r, 0int, total_step(m2, token), a);
    }
}

/// Moving the change of `k` by `d` moves the total of `k`'s token by `d`.
proof fn lemma_total_adjust(
    m: Map<(Seq<u8>, Seq<u8>), int>,
    k: (Seq<u8>, Seq<u8>),
    d: int,
    token: Seq<u8>,
)
    requires
        m.dom().finite(),
    ensures
        m.insert(k, change_at(m, k) + d).dom().finite(),
        token_total(m.insert(k, change_at(m, k) + d), token) == token_total(m, token) + if k.1
            == token {
            d
        } else {
            0
        },
{
    let m2 = m.insert(k, change_at(m, k) + d);
    let r = m.dom().remove(k);
    lemma_total_step_commutative(m, token);
    lemma_total_step_commutative(m2, token);
    lemma_fold_agree(r, m, m2, token);
    assert(r.insert(k) =~= m2.dom());
    lemma_fold_insert(r, 0int, total_step(m2, token), k);
    if m.dom().contains(k) {
        assert(r.insert(k) =~= m.dom());
        lemma_fold_insert(r, 0int, total_step(m, token), k);
    } else {
        assert(r =~= m.dom());
    }
}

/// The balance changes of any movements record finitely many pairs, and
/// in each token they sum to zero.
proof fn lemma_movements_conserved(mvs: Seq<Movement>, token: Seq<u8>)
    ensures
        spec_balances(mvs).dom().finite(),
        token_total(spec_balances(mvs), token) == 0,
    decreases mvs.len(),
{
    if mvs.len() == 0 {
        lemma_fold_empty(0int, total_step(Map::empty(), token));
        assert(spec_balances(mvs).dom() =~= Set::empty());
    } else {
        let m = spec_balances(mvs.drop_last());
        let mv = mvs.last();
        lemma_movements_conserved(mvs.drop_last(), token);
        let v = signed_value(mv.value);
        let k1 = (mv.from, mv.token);
        let k2 = (mv.to, mv.token);
        lemma_total_adjust(m, k1, -v, token);
        let m1 = m.insert(k1, change_at(m, k1) + -v);
        assert(m1 == m.insert(k1, change_at(m, k1) - v));
        lemma_total_adjust(m1, k2, v, token);
    }
}

/// Every movement takes its value from one owner and gives it to another,
/// so the balance changes that logs record sum to zero in each token.
pub proof fn lemma_balance_changes_conserved(logs: Seq<LogEntry>, token: Seq<u8>)
    ensures
        token_total(spec_balances(log_movements(logs)), token) == 0,
{
    lemma_movements_conserved(log_movements(logs), token);
}

/// The changes after the change of `k` moves by `d`, from zero when none
/// is recorded.
pub open spec fn add_change(m: Map<(Seq<u8>, Seq<u8>), int>, k: (Seq<u8>, Seq<u8>), d: int) -> Map<
    (Seq<u8>, Seq<u8>),
    int,
> {
    m.insert(k, change_at(m, k) + d)
}

/// The changes after one log: its movement applied, if it records one.
pub open spec fn log_step(m: Map<(Seq<u8>, Seq<u8>), int>, log: LogEntry) -> Map<
    (Seq<u8>, Seq<u8>),
    int,
> {
    match spec_log_movement(log) {
        Some(mv) => apply_movement(m, mv),
        None => m,
    }
}

/// The changes after the logs in order, starting from the changes `m`.
pub open spec fn balances_after(m: Map<(Seq<u8>, Seq<u8>), int>, logs: Seq<LogEntry>) -> Map<
    (Seq<u8>, Seq<u8>),
    int,
>
    decreases logs.len(),
{
    if logs.len() == 0 {
        m
    } else {
        log_step(balances_after(m, logs.drop_last()), logs.last())
    }
}

/// Two moves of changes can be made in either order.
proof fn lemma_add_change_commute(
    m: Map<(Seq<u8>, Seq<u8>), int>,
    k1: (Seq<u8>, Seq<u8>),
    d1: int,
    k2: (Seq<u8>, Seq<u8>),
    d2: int,
)
    ensures
        add_change(add_change(m, k1, d1), k2, d2) == add_change(add_change(m, k2, d2), k1, d1),
{
    assert(add_change(add_change(m, k1, d1), k2, d2) =~= add_change(add_change(m, k2, d2), k1, d1));
}

/// A movement is two moves of changes.
proof fn lemma_apply_movement_moves(m: Map<(Seq<u8>, Seq<u8>), int>, mv: Movement)
    ensures
        apply_movement(m, mv) == add_change(
            add_change(m, (mv.from, mv.token), -signed_value(mv.value)),
            (mv.to, mv.token),
            signed_value(mv.value),
        ),
{
    let v = signed_value(mv.value);
    assert(add_change(m, (mv.from, mv.token), -v) == m.insert(
        (mv.from, mv.token),
        change_at(m, (mv.from, mv.token)) - v,
    ));
}

/// Two logs can be taken in either order.
proof fn lemma_log_step_commute(m: Map<(Seq<u8>, Seq<u8>), int>, x: LogEntry, y: LogEntry)
    ensures
        log_step(log_step(m, x), y) == log_step(log_step(m, y), x),
{
    match (spec_log_movement(x), spec_log_movement(y)) {
        (Some(a), Some(b)) => {
            let (va, vb) = (signed_value(a.value), signed_value(b.value));
            let (a1, a2) = ((a.from, a.token), (a.to, a.token));
            let (b1, b2) = ((b.from, b.token), (b.to, b.token));
            lemma_apply_movement_moves(m, a);
            lemma_apply_movement_moves(m, b);
            lemma_apply_movement_moves(apply_movement(m, a), b);
            lemma_apply_movement_moves(apply_movement(m, b), a);
            let ma1 = add_change(m, a1, -va);
            let mb1 = add_change(m, b1, -vb);
            // a1 a2 b1 b2  ->  b1 b2 a1 a2
            lemma_add_change_commute(add_change(ma1, a2, va), b1, -vb, a2, va);
            lemma_add_change_commute(ma1, a2, va, b1, -vb);
            lemma_add_change_commute(add_change(add_change(ma1, b1, -vb), a2, va), b2, vb, a2, va);
            lemma_add_change_commute(add_change(ma1, b1, -vb), b2, vb, a2, va);
            lemma_add_change_commute(m, a1, -va, b1, -vb);
            lemma_add_change_commute(add_change(mb1, a1, -va), b2, vb, a1, -va);
            lemma_add_change_commute(mb1, a1, -va, b2, vb);
        },
        _ => {},
    }
}

/// A log can be moved from the middle to the end.
proof fn lemma_move_to_end(m: Map<(Seq<u8>, Seq<u8>), int>, a: Seq<LogEntry>, x: LogEntry, b: Seq<LogEntry>)
    ensures
        balances_after(m, a + seq![x] + b) == balances_after(m, a + b + seq![x]),
    decreases b.len(),
{
    if b.len() == 0 {
        assert(a + seq![x] + b =~= a + b + seq![x]);
    } else {
        let b1 = b.drop_last();
        let y = b.last();
        lemma_move_to_end(m, a, x, b1);
        assert((a + seq![x] + b).drop_last() =~= a + seq![x] + b1);
        assert((a + seq![x] + b).last() == y);
        assert((a + b + seq![x]).drop_last() =~= a + b);
        assert((a + b).drop_last() =~= a + b1);
        assert((a + b1 + seq![x]).drop_last() =~= a + b1);
        assert((a + b1 + seq![x]).last() == x);
        assert((a + b).last() == y);
        let base = balances_after(m, a + b1);
        lemma_log_step_commute(base, x, y);
        assert(balances_after(m, a + seq![x] + b) == log_step(
            balances_after(m, a + seq![x] + b1),
            y,
        ));
        assert(balances_after(m, a + b1 + seq![x]) == log_step(base, x));
        assert(balances_after(m, a + b) == log_step(base, y));
        assert(balances_after(m, a + b + seq![x]) == log_step(balances_after(m, a + b), x));
    }
}

/// Balance changes read from an empty start are those of `spec_balances`.
pub proof fn lemma_balances_from_empty(logs: Seq<LogEntry>)
    ensures
        spec_balances(log_movements(logs)) == balances_after(Map::empty(), logs),
    decreases logs.len(),
{
    if logs.len() > 0 {
        lemma_balances_from_empty(logs.drop_last());
        match spec_log_movement(logs.last()) {
            Some(mv) => {
                let e = log_movements(logs.drop_last());
                assert(e.push(mv).drop_last() =~= e);
            },
            None => {},
        }
    }
}

/// Reading two batches of logs one after the other gives the same balance
/// changes as reading them joined.
pub proof fn lemma_balances_split(m: Map<(Seq<u8>, Seq<u8>), int>, l1: Seq<LogEntry>, l2: Seq<LogEntry>)
    ensures
        balances_after(m, l1 + l2) == balances_after(balances_after(m, l1), l2),
    decreases l2.len(),
{
    if l2.len() == 0 {
        assert(l1 + l2 =~= l1);
    } else {
        lemma_balances_split(m, l1, l2.drop_last());
        assert((l1 + l2).drop_last() =~= l1 + l2.drop_last());
        assert((l1 + l2).last() == l2.last());
    }
}

/// The order of the logs does not change the balance changes: logs that
/// are the same up to order give the same changes.
pub proof fn lemma_balances_order(m: Map<(Seq<u8>, Seq<u8>), int>, l1: Seq<LogEntry>, l2: Seq<LogEntry>)
    requires
        l1.to_multiset() == l2.to_multiset(),
    ensures
        balances_after(m, l1) == balances_after(m, l2),
    decreases l2.len(),
{
    broadcast use group_to_multiset_ensures;

    if l2.len() == 0 {
        assert(l1.len() == l1.to_multiset().len());
        assert(l2.len() == l2.to_multiset().len());
        assert(l1.len() == 0);
        assert(l1 =~= l2);
    } else {
        let x = l2.last();
        let r2 = l2.drop_last();
        assert(l2 =~= r2.push(x));
        assert(l1.to_multiset().count(x) > 0);
        assert(l1.contains(x));
        let i = choose|i: int| 0 <= i < l1.len() && l1[i] == x;
        let a = l1.take(i);
        let b = l1.skip(i + 1);
        assert(l1 =~= a + seq![x] + b);
        assert(l1.remove(i) =~= a + b);
        assert(l1.remove(i).to_multiset() =~= r2.to_multiset());
        lemma_balances_order(m, a + b, r2);
        lemma_move_to_end(m, a, x, b);
        assert((a + b + seq![x]).drop_last() =~= a + b);
        assert((a + b + seq![x]).last() == x);
    }
}

/// A log that records no movement leaves the balance changes as they are.
pub proof fn lemma_ignored_log(m: Map<(Seq<u8>, Seq<u8>), int>, logs: Seq<LogEntry>, log: LogEntry)
    requires
        spec_log_movement(log) is None,
    ensures
        balances_after(m, logs.push(log)) == balances_after(m, logs),
{
    assert(logs.push(log).drop_last() =~= logs);
}

/// Every `Transfer` log moves its value, whatever contract emitted it
/// (WETH included): a log with exactly three topics, the first being the
/// hash of `Transfer(address,address,uint256)`, and at least one data word
/// moves the first data word of the emitting token from the address in the
/// low 20 bytes of the second topic to the one in the third. Read alone,
/// it takes that value from the sender and gives it to the receiver.
pub proof fn lemma_transfer_log_moves(log: LogEntry)
    requires
        log.topics@.len() == 3,
        log.topics@[0]@ == spec_keccak256(TRANSFER_EVENT.spec_bytes()),
        log.data@.len() >= 32,
    ensures
        spec_log_movement(log) matches Some(mv) && mv.from == log.topics@[1]@.subrange(12, 32)
            && mv.to == log.topics@[2]@.subrange(12, 32) && mv.token == log.address@ && mv.value
            == log.data@.subrange(0, 32),
        ({
            let from = (log.topics@[1]@.subrange(12, 32), log.address@);
            let to = (log.topics@[2]@.subrange(12, 32), log.address@);
            let v = signed_value(log.data@.subrange(0, 32));
            let m = spec_balances(log_movements(seq![log]));
            &&& m.dom() == set![from, to]
            &&& from != to ==> m[from] == -v && m[to] == v
            &&& from == to ==> m[from] == 0
        }),
{
    assert(log.data@.take(32) =~= log.data@.subrange(0, 32));
    let s = seq![log];
    assert(s.drop_last() =~= Seq::<LogEntry>::empty());
    assert(s.last() == log);
    assert(log_movements(Seq::<LogEntry>::empty()) == Seq::<Movement>::empty());
    assert(log_movements(s.drop_last()) == Seq::<Movement>::empty());
    let mv = spec_log_movement(log).unwrap();
    assert(log_movements(s) == Seq::<Movement>::empty().push(mv));
    let ms = Seq::<Movement>::empty().push(mv);
    assert(ms.drop_last() =~= Seq::<Movement>::empty());
    assert(ms.last() == mv);
    assert(spec_balances(Seq::<Movement>::empty()) == Map::<(Seq<u8>, Seq<u8>), int>::empty());
    assert(spec_balances(ms.drop_last()) == Map::<(Seq<u8>, Seq<u8>), int>::empty());
    let from = (mv.from, mv.token);
    let to = (mv.to, mv.token);
    let m = spec_balances(ms);
    assert(m == apply_movement(Map::empty(), mv));
    assert(m.dom() =~= set![from, to]);
}

} // verus!
