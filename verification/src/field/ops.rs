//! Operators on field elements.
use vstd::prelude::*;

use crate::field::elem::prime;
use crate::field::{ext2_mul, gl_add, gl_mul, gl_sub, GoldilocksExt2, GoldilocksField};

verus! {

impl core::ops::Add for GoldilocksField {
    type Output = GoldilocksField;

    fn add(self, rhs: GoldilocksField) -> (r: GoldilocksField) {
        gl_add(self, rhs)
    }
}

impl vstd::std_specs::ops::AddSpecImpl for GoldilocksField {
    open spec fn obeys_add_spec() -> bool {
        true
    }

    open spec fn add_req(self, rhs: GoldilocksField) -> bool {
        true
    }

    open spec fn add_spec(self, rhs: GoldilocksField) -> GoldilocksField {
        GoldilocksField(((self.0 + rhs.0) % prime()) as u64)
    }
}

impl core::ops::Sub for GoldilocksField {
    type Output = GoldilocksField;

    fn sub(self, rhs: GoldilocksField) -> (r: GoldilocksField) {
        gl_sub(self, rhs)
    }
}

impl vstd::std_specs::ops::SubSpecImpl for GoldilocksField {
    open spec fn obeys_sub_spec() -> bool {
        true
    }

    open spec fn sub_req(self, rhs: GoldilocksField) -> bool {
        true
    }

    open spec fn sub_spec(self, rhs: GoldilocksField) -> GoldilocksField {
        GoldilocksField(((self.0 - rhs.0) % prime()) as u64)
    }
}

impl core::ops::Mul for GoldilocksField {
    type Output = GoldilocksField;

    fn mul(self, rhs: GoldilocksField) -> (r: GoldilocksField) {
        gl_mul(self, rhs)
    }
}

impl vstd::std_specs::ops::MulSpecImpl for GoldilocksField {
    open spec fn obeys_mul_spec() -> bool {
        true
    }

    open spec fn mul_req(self, rhs: GoldilocksField) -> bool {
        true
    }

    open spec fn mul_spec(self, rhs: GoldilocksField) -> GoldilocksField {
        GoldilocksField(((self.0 * rhs.0) % prime()) as u64)
    }
}

/// The canonical words of the element `re + im X`.
pub open spec fn ext_words(re: int, im: int) -> GoldilocksExt2 {
    GoldilocksExt2 {
        c0: GoldilocksField((re % prime()) as u64),
        c1: GoldilocksField((im % prime()) as u64),
    }
}

impl core::ops::Add for GoldilocksExt2 {
    type Output = GoldilocksExt2;

    fn add(self, rhs: GoldilocksExt2) -> (r: GoldilocksExt2) {
        GoldilocksExt2 { c0: gl_add(self.c0, rhs.c0), c1: gl_add(self.c1, rhs.c1) }
    }
}

impl vstd::std_specs::ops::AddSpecImpl for GoldilocksExt2 {
    open spec fn obeys_add_spec() -> bool {
        true
    }

    open spec fn add_req(self, rhs: GoldilocksExt2) -> bool {
        true
    }

    open spec fn add_spec(self, rhs: GoldilocksExt2) -> GoldilocksExt2 {
        ext_words(self.c0.0 + rhs.c0.0, self.c1.0 + rhs.c1.0)
    }
}

impl core::ops::Sub for GoldilocksExt2 {
    type Output = GoldilocksExt2;

    fn sub(self, rhs: GoldilocksExt2) -> (r: GoldilocksExt2) {
        GoldilocksExt2 { c0: gl_sub(self.c0, rhs.c0), c1: gl_sub(self.c1, rhs.c1) }
    }
}

impl vstd::std_specs::ops::SubSpecImpl for GoldilocksExt2 {
    open spec fn obeys_sub_spec() -> bool {
        true
    }

    open spec fn sub_req(self, rhs: GoldilocksExt2) -> bool {
        true
    }

    open spec fn sub_spec(self, rhs: GoldilocksExt2) -> GoldilocksExt2 {
        ext_words(self.c0.0 - rhs.c0.0, self.c1.0 - rhs.c1.0)
    }
}

impl core::ops::Mul for GoldilocksExt2 {
    type Output = GoldilocksExt2;

    fn mul(self, rhs: GoldilocksExt2) -> (r: GoldilocksExt2) {
        let r: GoldilocksExt2 = ext2_mul(self, rhs);
        proof {
            reveal(crate::field::elem::Elem::spec_mul);
        }
        r
    }
}

impl vstd::std_specs::ops::MulSpecImpl for GoldilocksExt2 {
    open spec fn obeys_mul_spec() -> bool {
        true
    }

    open spec fn mul_req(self, rhs: GoldilocksExt2) -> bool {
        true
    }

    open spec fn mul_spec(self, rhs: GoldilocksExt2) -> GoldilocksExt2 {
        let p = self@ * rhs@;
        ext_words(p.re, p.im)
    }
}

} // verus!
