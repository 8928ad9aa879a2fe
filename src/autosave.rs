use vstd::prelude::*;

verus! {

/// A dirty value is written out once this many milliseconds have passed since the last save.
pub const FLUSH_AFTER_MS: u64 = 10_000;

/// A value is released from memory once this many milliseconds have passed since the last touch.
pub const EVICT_AFTER_MS: u64 = 10_000;

/// How often, in milliseconds, the owner of a cache should run its periodic check.
pub const CHECK_EVERY_MS: u64 = 1_000;

/// The state of a write-behind cache entry, as a mathematical value.
pub struct CacheModel<T> {
    /// The owner has let go of the entry.
    pub dropped: bool,
    /// The value held in memory differs from what storage holds.
    pub mutated: bool,
    pub last_touch: u64,
    pub last_save: u64,
    /// The value in memory, if it is loaded.
    pub held: Option<T>,
    /// What a load from storage yields (the saved record, or the default where there
    /// is none), once the entry has been loaded.
    pub stored: Option<T>,
}

/// What the owner of a cache must do after a periodic check.
#[derive(Debug)]
pub enum Housekeeping<T> {
    /// Nothing has to be written.
    Idle,
    /// Write the value that the cache still holds to storage.
    SaveHeld,
    /// The value was released from memory; write it to storage.
    SaveReleased(T),
}

impl<T> CacheModel<T> {
    pub open spec fn wf(&self) -> bool {
        &&& self.mutated ==> self.held is Some
        &&& !self.mutated && self.held is Some ==> self.stored == self.held
    }

    /// The value that an access sees: the one in memory, else the one storage yields.
    pub open spec fn content(&self) -> Option<T> {
        if self.held is Some {
            self.held
        } else {
            self.stored
        }
    }

    pub open spec fn fresh(now: u64) -> CacheModel<T> {
        CacheModel {
            dropped: false,
            mutated: false,
            last_touch: now,
            last_save: now,
            held: None,
            stored: None,
        }
    }

    /// After the value that storage yields has been put in memory.
    pub open spec fn loaded(self, v: T) -> CacheModel<T> {
        CacheModel { held: Some(v), stored: Some(v), ..self }
    }

    pub open spec fn touched(self, now: u64) -> CacheModel<T> {
        CacheModel { last_touch: now, ..self }
    }

    /// After an exclusive access that left `v` in memory.
    pub open spec fn written(self, v: T, now: u64) -> CacheModel<T> {
        CacheModel { mutated: true, last_touch: now, held: Some(v), ..self }
    }

    /// After a save of a dirty value, or after nothing where the value is clean.
    pub open spec fn saved(self, now: u64) -> CacheModel<T> {
        CacheModel {
            mutated: false,
            last_save: now,
            stored: if self.mutated {
                self.held
            } else {
                self.stored
            },
            ..self
        }
    }

    pub open spec fn finished(self, now: u64) -> CacheModel<T> {
        CacheModel { dropped: true, ..self }.saved(now)
    }

    pub open spec fn flush_due(&self, now: u64) -> bool {
        now > self.last_save && now - self.last_save > FLUSH_AFTER_MS
    }

    pub open spec fn idle(&self, now: u64) -> bool {
        now > self.last_touch && now - self.last_touch > EVICT_AFTER_MS
    }

    /// After a periodic check at `now`: save when a flush is due or the entry is idle,
    /// then release the value of an idle entry.
    pub open spec fn checked(self, now: u64) -> CacheModel<T> {
        let s = if self.flush_due(now) || self.idle(now) {
            self.saved(now)
        } else {
            self
        };
        if self.idle(now) {
            CacheModel { held: None, ..s }
        } else {
            s
        }
    }
}

/// A value that is loaded on first access, written back to storage some time after
/// it changes, and released from memory when nobody has touched it for a while.
///
/// The entry does no input or output itself: its owner performs the loads and saves
/// that its methods call for, at the times that it hands in.
pub struct AutoSaved<T> {
    dropped: bool,
    mutated: bool,
    last_touch: u64,
    last_save: u64,
    value: Option<T>,
    stored: Ghost<Option<T>>,
}

impl<T> View for AutoSaved<T> {
    type V = CacheModel<T>;

    closed spec fn view(&self) -> CacheModel<T> {
        CacheModel {
            dropped: self.dropped,
            mutated: self.mutated,
            last_touch: self.last_touch,
            last_save: self.last_save,
            held: self.value,
            stored: self.stored@,
        }
    }
}

/// A value written and then dropped with the cache is saved, and a new cache over the
/// same storage reads it back.
pub proof fn lemma_write_survives_drop<T>(c: CacheModel<T>, v: T, t_write: u64, t_drop: u64, t_new: u64)
    requires
        c.wf(),
    ensures
        c.written(v, t_write).mutated,
        c.written(v, t_write).finished(t_drop).stored == Some(v),
        CacheModel::<T>::fresh(t_new).loaded(c.written(v, t_write).finished(t_drop).stored->0).content()
            == Some(v),
{
}

/// Releasing an idle value from memory changes nothing that an access sees: what
/// storage yields afterwards is the value that was held.
pub proof fn lemma_eviction_transparent<T>(c: CacheModel<T>, now: u64)
    requires
        c.wf(),
        c.held is Some,
        c.idle(now),
    ensures
        c.checked(now).held is None,
        c.checked(now).wf(),
        c.checked(now).stored == c.held,
        c.checked(now).loaded(c.checked(now).stored->0).content() == c.content(),
{
}

impl<T> AutoSaved<T> {
    pub fn new(now: u64) -> (r: Self)
        ensures
            r@ == CacheModel::<T>::fresh(now),
    {
        AutoSaved {
            dropped: false,
            mutated: false,
            last_touch: now,
            last_save: now,
            value: None,
            stored: Ghost(None),
        }
    }

    /// Whether the value has to be loaded from storage before an access.
    pub fn needs_load(&self) -> (r: bool)
        ensures
            r == (self@.held is None),
    {
        self.value.is_none()
    }

    pub fn is_dropped(&self) -> (r: bool)
        ensures
            r == self@.dropped,
    {
        self.dropped
    }

    /// Puts in memory `value`, which storage yields: its record, or the default value
    /// where it holds none.
    pub fn load(&mut self, value: T)
        requires
            old(self)@.wf(),
            old(self)@.held is None,
        ensures
            final(self)@ == old(self)@.loaded(value),
            final(self)@.wf(),
    {
        self.stored = Ghost(Some(value));
        self.value = Some(value);
    }

    /// Records an access at `now`.
    pub fn touch(&mut self, now: u64)
        ensures
            final(self)@ == old(self)@.touched(now),
    {
        self.last_touch = now;
    }

    /// The value in memory.
    pub fn value(&self) -> (r: &T)
        requires
            self@.held is Some,
        ensures
            self@.held == Some(*r),
    {
        self.value.as_ref().unwrap()
    }

    /// Shared access at `now` to the value in memory.
    pub fn read(&mut self, now: u64) -> (r: &T)
        requires
            old(self)@.held is Some,
        ensures
            old(self)@.held == Some(*r),
            final(self)@ == old(self)@.touched(now),
    {
        self.last_touch = now;
        self.value.as_ref().unwrap()
    }

    /// Exclusive access at `now` to the value in memory, which is then due to be saved.
    pub fn write(&mut self, now: u64) -> (r: &mut T)
        requires
            old(self)@.held is Some,
        ensures
            old(self)@.held == Some(*r),
            final(self)@ == old(self)@.written(*final(r), now),
    {
        self.mutated = true;
        self.last_touch = now;
        self.value.as_mut().unwrap()
    }

    /// Marks the value as saved at `now`; returns whether it was dirty, in which case the
    /// caller must write the value in memory to storage.
    pub fn save_if_needed(&mut self, now: u64) -> (r: bool)
        requires
            old(self)@.wf(),
        ensures
            r == old(self)@.mutated,
            final(self)@ == old(self)@.saved(now),
            final(self)@.wf(),
            final(self)@.content() == old(self)@.content(),
    {
        self.last_save = now;
        if !self.mutated {
            return false;
        }
        self.stored = Ghost(self.value);
        self.mutated = false;
        true
    }

    /// The periodic check at `now`: saves when a flush is due or the entry is idle, and
    /// releases the value of an idle entry.
    pub fn periodic_check(&mut self, now: u64) -> (r: Housekeeping<T>)
        requires
            old(self)@.wf(),
        ensures
            final(self)@ == old(self)@.checked(now),
            final(self)@.wf(),
            final(self)@.content() == old(self)@.content(),
            match r {
                Housekeeping::Idle => !(old(self)@.mutated && (old(self)@.flush_due(now)
                    || old(self)@.idle(now))),
                Housekeeping::SaveHeld => old(self)@.mutated && old(self)@.flush_due(now)
                    && !old(self)@.idle(now),
                Housekeeping::SaveReleased(v) => old(self)@.mutated && old(self)@.idle(now)
                    && old(self)@.held == Some(v),
            },
    {
        let flush_due = now > self.last_save && now - self.last_save > FLUSH_AFTER_MS;
        let idle = now > self.last_touch && now - self.last_touch > EVICT_AFTER_MS;
        let mut must_save = false;
        if flush_due || idle {
            must_save = self.save_if_needed(now);
        }
        if idle {
            let released = self.value.take();
            if must_save {
                return Housekeeping::SaveReleased(released.unwrap());
            }
            return Housekeeping::Idle;
        }
        if must_save {
            Housekeeping::SaveHeld
        } else {
            Housekeeping::Idle
        }
    }

    /// The owner lets go of the entry at `now`; returns whether the caller must write the
    /// value in memory to storage before it is dropped.
    pub fn finish(&mut self, now: u64) -> (r: bool)
        requires
            old(self)@.wf(),
        ensures
            r == old(self)@.mutated,
            final(self)@ == old(self)@.finished(now),
            final(self)@.wf(),
            final(self)@.stored == old(self)@.content(),
    {
        self.dropped = true;
        self.save_if_needed(now)
    }
}

} // verus!
