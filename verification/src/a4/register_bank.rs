use vstd::prelude::*;
use vstd::multiset::Multiset;
use crate::a4::Int;

verus! {

broadcast use vstd::seq_lib::group_to_multiset_ensures;

/// A position `(row, column)` in a list of sorted runs.
#[derive(PartialEq, Eq, PartialOrd, Ord, Copy, Clone, Debug)]
pub struct Pos(pub usize, pub usize);

/// A value together with the position it was read from.
#[derive(PartialEq, Eq, PartialOrd, Ord, Copy, Clone, Debug)]
pub struct Register(pub Int, pub Pos);

/// Registers ordered by value, then row, then column.
pub open spec fn reg_le(a: Register, b: Register) -> bool {
    a.0 < b.0 || (a.0 == b.0 && (a.1.0 < b.1.0 || (a.1.0 == b.1.0 && a.1.1 <= b.1.1)))
}

/// A bank of at most `k` registers from which the least can be taken.
pub struct RegisterBank {
    bank: Vec<Register>,
    k: usize,
}

/// The least register of a bank, taken out of it; the bank stays borrowed so that a
/// register can be put in its place.
pub struct BankHandle<'r_bank> {
    register_bank: &'r_bank mut RegisterBank,
    min: Register,
}

fn reg_less(a: Register, b: Register) -> (r: bool)
    ensures
        r == (reg_le(a, b) && a != b),
{
    a.0 < b.0 || (a.0 == b.0 && (a.1.0 < b.1.0 || (a.1.0 == b.1.0 && a.1.1 < b.1.1)))
}

impl RegisterBank {
    /// The registers in the bank.
    pub closed spec fn registers(&self) -> Multiset<Register> {
        self.bank@.to_multiset()
    }

    /// How many registers the bank may hold.
    pub closed spec fn limit(&self) -> nat {
        self.k as nat
    }

    /// An empty bank for at most `capacity` registers.
    pub fn new(capacity: usize) -> (r: RegisterBank)
        ensures
            r.registers() == Multiset::<Register>::empty(),
            r.limit() == capacity,
    {
        RegisterBank { bank: Vec::with_capacity(capacity), k: capacity }
    }

    /// Takes the least register out of the bank, or gives `None` when the bank is empty.
    pub fn remove_min(&mut self) -> (r: Option<BankHandle<'_>>)
        ensures
            old(self).registers().len() == 0 ==> r is None && final(self).registers()
                == old(self).registers() && final(self).limit() == old(self).limit(),
            old(self).registers().len() > 0 ==> (r matches Some(h) && {
                &&& old(self).registers().count(h.least()) > 0
                &&& forall|x: Register| #[trigger]
                    old(self).registers().count(x) > 0 ==> reg_le(h.least(), x)
                &&& h.bank().registers() == old(self).registers().remove(h.least())
                &&& h.bank().limit() == old(self).limit()
                &&& *final(self) == *final(h.bank_ref())
            }),
    {
        let len = self.bank.len();
        if len == 0 {
            return None;
        }
        let mut best: usize = 0;
        let mut idx: usize = 1;
        while idx < len
            invariant
                len == self.bank@.len(),
                self.bank@ == old(self).bank@,
                0 <= best < idx <= len,
                forall|q: int| 0 <= q < idx ==> reg_le(self.bank@[best as int], self.bank@[q]),
            decreases len - idx,
        {
            if reg_less(self.bank[idx], self.bank[best]) {
                best = idx;
            }
            idx = idx + 1;
        }
        let ghost before = self.bank@;
        let min = self.bank.remove(best);
        proof {
            assert forall|x: Register| #[trigger] before.to_multiset().count(x) > 0 implies reg_le(
                min,
                x,
            ) by {
                assert(before.contains(x));
                let q = choose|q: int| 0 <= q < before.len() && before[q] == x;
            }
            assert(before.contains(min)) by {
                assert(before[best as int] == min);
            }
        }
        Some(BankHandle { register_bank: self, min })
    }

    /// Empties the bank and fills it with `registers`; more registers than the bank may hold
    /// are refused.
    pub fn re_innit(&mut self, registers: Vec<Register>)
        requires
            registers@.len() <= old(self).limit(),
        ensures
            final(self).registers() == registers@.to_multiset(),
            final(self).limit() == old(self).limit(),
    {
        self.bank.clear();
        let mut i: usize = 0;
        while i < registers.len()
            invariant
                i <= registers@.len(),
                self.k == old(self).k,
                self.bank@ == registers@.take(i as int),
            decreases registers@.len() - i,
        {
            self.bank.push(registers[i]);
            i = i + 1;
            proof {
                assert(self.bank@ =~= registers@.take(i as int));
            }
        }
        proof {
            assert(registers@.take(registers@.len() as int) == registers@);
        }
    }
}

impl<'r_bank> BankHandle<'r_bank> {
    /// The register that was taken out.
    pub closed spec fn least(&self) -> Register {
        self.min
    }

    /// The bank as it is now, without the register taken out.
    pub closed spec fn bank(&self) -> RegisterBank {
        *self.register_bank
    }

    /// The borrow of the bank that the handle holds.
    pub closed spec fn bank_ref(&self) -> &'r_bank mut RegisterBank {
        self.register_bank
    }

    /// The register that was taken out.
    pub fn get(&self) -> (r: Register)
        ensures
            r == self.least(),
    {
        self.min
    }

    /// Whether the bank has room for one more register, as `insert` asks.
    pub fn has_room(&self) -> (r: bool)
        ensures
            r == (self.bank().registers().len() < self.bank().limit()),
    {
        proof {
            vstd::seq_lib::to_multiset_len(self.register_bank.bank@);
        }
        self.register_bank.bank.len() < self.register_bank.k
    }

    /// Puts `register` into the bank the least register was taken from.
    pub fn insert(self, register: Register)
        requires
            self.bank().registers().len() < self.bank().limit(),
        ensures
            final(self.bank_ref()).registers() == self.bank().registers().insert(register),
            final(self.bank_ref()).limit() == self.bank().limit(),
    {
        self.register_bank.bank.push(register);
    }
}

/// A handle let go of without a register put back leaves the bank as the handle held it.
pub(crate) proof fn lemma_handle_dropped(h: BankHandle)
    requires
        has_resolved(h),
    ensures
        *final(h.bank_ref()) == h.bank(),
{
}

} // verus!
