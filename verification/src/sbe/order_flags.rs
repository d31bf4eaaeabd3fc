use vstd::prelude::*;

verus! {

/// Whether bit `b` of `v` is set.
pub open spec fn flag_bit(v: u16, b: u16) -> bool {
    (v >> b) & 1u16 == 1u16
}

/// Setting bit `b` makes it read as set and keeps every other bit.
pub proof fn lemma_flag_set(v: u16, b: u16)
    by (bit_vector)
    requires
        b < 16,
    ensures
        ((v | (1u16 << b)) >> b) & 1u16 == 1u16,
        forall|c: u16| c < 16 && c != b ==> (((v | (1u16 << b)) >> c) & 1u16 == 1u16) == ((v >> c) & 1u16 == 1u16),
{
}

/// Clearing bit `b` makes it read as clear and keeps every other bit.
pub proof fn lemma_flag_clear(v: u16, b: u16)
    by (bit_vector)
    requires
        b < 16,
    ensures
        ((v & !(1u16 << b)) >> b) & 1u16 != 1u16,
        forall|c: u16| c < 16 && c != b ==> (((v & !(1u16 << b)) >> c) & 1u16 == 1u16) == ((v >> c) & 1u16 == 1u16),
{
}

/// Testing a bit with a mask agrees with `flag_bit`.
pub proof fn lemma_flag_test(v: u16, b: u16)
    by (bit_vector)
    requires
        b < 16,
    ensures
        (0u16 != v & (1u16 << b)) == ((v >> b) & 1u16 == 1u16),
{
}

/// Set of order option flags, one bit each (two bytes on the wire).
#[derive(Clone, Copy, Debug, Default, PartialEq, Eq, PartialOrd, Ord, Hash, Structural)]
pub struct OrderFlags(pub u16);

impl OrderFlags {
    /// Flags with the raw bit pattern `value`.
    pub fn new(value: u16) -> (r: Self)
        ensures
            r.0 == value,
    {
        OrderFlags(value)
    }

    /// Clears every flag.
    pub fn clear(&mut self) -> (r: &mut Self)
        ensures
            r.0 == 0,
            *final(self) == *final(r),
    {
        self.0 = 0;
        self
    }

    /// Whether the `post_only` flag (bit 0) is set.
    pub fn get_post_only(&self) -> (r: bool)
        ensures
            r == flag_bit(self.0, 0u16),
    {
        proof {
            lemma_flag_test(self.0, 0u16);
        }
        0 != self.0 & (1u16 << 0u16)
    }

    /// Sets or clears the `post_only` flag (bit 0); every other bit is kept.
    pub fn set_post_only(&mut self, value: bool) -> (r: &mut Self)
        ensures
            flag_bit(r.0, 0u16) == value,
            forall|c: u16| c < 16 && c != 0u16 ==> flag_bit(r.0, c) == flag_bit(old(self).0, c),
            r.0 == (if value { old(self).0 | (1u16 << 0u16) } else { old(self).0 & !(1u16 << 0u16) }),
            *final(self) == *final(r),
    {
        proof {
            lemma_flag_set(self.0, 0u16);
            lemma_flag_clear(self.0, 0u16);
        }
        self.0 = if value {
            self.0 | (1u16 << 0u16)
        } else {
            self.0 & !(1u16 << 0u16)
        };
        self
    }

    /// Whether the `reduce_only` flag (bit 1) is set.
    pub fn get_reduce_only(&self) -> (r: bool)
        ensures
            r == flag_bit(self.0, 1u16),
    {
        proof {
            lemma_flag_test(self.0, 1u16);
        }
        0 != self.0 & (1u16 << 1u16)
    }

    /// Sets or clears the `reduce_only` flag (bit 1); every other bit is kept.
    pub fn set_reduce_only(&mut self, value: bool) -> (r: &mut Self)
        ensures
            flag_bit(r.0, 1u16) == value,
            forall|c: u16| c < 16 && c != 1u16 ==> flag_bit(r.0, c) == flag_bit(old(self).0, c),
            r.0 == (if value { old(self).0 | (1u16 << 1u16) } else { old(self).0 & !(1u16 << 1u16) }),
            *final(self) == *final(r),
    {
        proof {
            lemma_flag_set(self.0, 1u16);
            lemma_flag_clear(self.0, 1u16);
        }
        self.0 = if value {
            self.0 | (1u16 << 1u16)
        } else {
            self.0 & !(1u16 << 1u16)
        };
        self
    }

    /// Whether the `iceberg` flag (bit 2) is set.
    pub fn get_iceberg(&self) -> (r: bool)
        ensures
            r == flag_bit(self.0, 2u16),
    {
        proof {
            lemma_flag_test(self.0, 2u16);
        }
        0 != self.0 & (1u16 << 2u16)
    }

    /// Sets or clears the `iceberg` flag (bit 2); every other bit is kept.
    pub fn set_iceberg(&mut self, value: bool) -> (r: &mut Self)
        ensures
            flag_bit(r.0, 2u16) == value,
            forall|c: u16| c < 16 && c != 2u16 ==> flag_bit(r.0, c) == flag_bit(old(self).0, c),
            r.0 == (if value { old(self).0 | (1u16 << 2u16) } else { old(self).0 & !(1u16 << 2u16) }),
            *final(self) == *final(r),
    {
        proof {
            lemma_flag_set(self.0, 2u16);
            lemma_flag_clear(self.0, 2u16);
        }
        self.0 = if value {
            self.0 | (1u16 << 2u16)
        } else {
            self.0 & !(1u16 << 2u16)
        };
        self
    }

    /// Whether the `hidden` flag (bit 3) is set.
    pub fn get_hidden(&self) -> (r: bool)
        ensures
            r == flag_bit(self.0, 3u16),
    {
        proof {
            lemma_flag_test(self.0, 3u16);
        }
        0 != self.0 & (1u16 << 3u16)
    }

    /// Sets or clears the `hidden` flag (bit 3); every other bit is kept.
    pub fn set_hidden(&mut self, value: bool) -> (r: &mut Self)
        ensures
            flag_bit(r.0, 3u16) == value,
            forall|c: u16| c < 16 && c != 3u16 ==> flag_bit(r.0, c) == flag_bit(old(self).0, c),
            r.0 == (if value { old(self).0 | (1u16 << 3u16) } else { old(self).0 & !(1u16 << 3u16) }),
            *final(self) == *final(r),
    {
        proof {
            lemma_flag_set(self.0, 3u16);
            lemma_flag_clear(self.0, 3u16);
        }
        self.0 = if value {
            self.0 | (1u16 << 3u16)
        } else {
            self.0 & !(1u16 << 3u16)
        };
        self
    }

    /// Whether the `marketable` flag (bit 4) is set.
    pub fn get_marketable(&self) -> (r: bool)
        ensures
            r == flag_bit(self.0, 4u16),
    {
        proof {
            lemma_flag_test(self.0, 4u16);
        }
        0 != self.0 & (1u16 << 4u16)
    }

    /// Sets or clears the `marketable` flag (bit 4); every other bit is kept.
    pub fn set_marketable(&mut self, value: bool) -> (r: &mut Self)
        ensures
            flag_bit(r.0, 4u16) == value,
            forall|c: u16| c < 16 && c != 4u16 ==> flag_bit(r.0, c) == flag_bit(old(self).0, c),
            r.0 == (if value { old(self).0 | (1u16 << 4u16) } else { old(self).0 & !(1u16 << 4u16) }),
            *final(self) == *final(r),
    {
        proof {
            lemma_flag_set(self.0, 4u16);
            lemma_flag_clear(self.0, 4u16);
        }
        self.0 = if value {
            self.0 | (1u16 << 4u16)
        } else {
            self.0 & !(1u16 << 4u16)
        };
        self
    }

    /// Whether the `disable_self_trade` flag (bit 5) is set.
    pub fn get_disable_self_trade(&self) -> (r: bool)
        ensures
            r == flag_bit(self.0, 5u16),
    {
        proof {
            lemma_flag_test(self.0, 5u16);
        }
        0 != self.0 & (1u16 << 5u16)
    }

    /// Sets or clears the `disable_self_trade` flag (bit 5); every other bit is kept.
    pub fn set_disable_self_trade(&mut self, value: bool) -> (r: &mut Self)
        ensures
            flag_bit(r.0, 5u16) == value,
            forall|c: u16| c < 16 && c != 5u16 ==> flag_bit(r.0, c) == flag_bit(old(self).0, c),
            r.0 == (if value { old(self).0 | (1u16 << 5u16) } else { old(self).0 & !(1u16 << 5u16) }),
            *final(self) == *final(r),
    {
        proof {
            lemma_flag_set(self.0, 5u16);
            lemma_flag_clear(self.0, 5u16);
        }
        self.0 = if value {
            self.0 | (1u16 << 5u16)
        } else {
            self.0 & !(1u16 << 5u16)
        };
        self
    }

}

} // verus!
