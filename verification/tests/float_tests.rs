use quickersort::find_first_zero;
use quickersort::sort_floats;
use quickersort::Float;

#[derive(Clone, Copy, Debug)]
struct F64(f64);

impl Float for F64 {
    fn is_nan_spec(self) -> bool {
        self.0 != self.0
    }

    fn is_zero_spec(self) -> bool {
        self.0 == 0.0
    }

    fn sign_neg_spec(self) -> bool {
        self.0.is_sign_negative()
    }

    fn le_spec(self, other: Self) -> bool {
        self.0 <= other.0
    }

    fn one() -> F64 {
        F64(1.0)
    }

    fn zero() -> F64 {
        F64(0.0)
    }

    fn neg_zero() -> F64 {
        F64(-0.0)
    }

    fn is_nan(self) -> bool {
        self.0 != self.0
    }

    fn is_sign_negative(self) -> bool {
        self.0.is_sign_negative()
    }

    fn pcmp(&self, other: &F64) -> Option<std::cmp::Ordering> {
        self.0.partial_cmp(&other.0)
    }
}

#[derive(Clone, Copy, Debug)]
struct F32(f32);

impl Float for F32 {
    fn is_nan_spec(self) -> bool {
        self.0 != self.0
    }

    fn is_zero_spec(self) -> bool {
        self.0 == 0.0
    }

    fn sign_neg_spec(self) -> bool {
        self.0.is_sign_negative()
    }

    fn le_spec(self, other: Self) -> bool {
        self.0 <= other.0
    }

    fn one() -> F32 {
        F32(1.0)
    }

    fn zero() -> F32 {
        F32(0.0)
    }

    fn neg_zero() -> F32 {
        F32(-0.0)
    }

    fn is_nan(self) -> bool {
        self.0 != self.0
    }

    fn is_sign_negative(self) -> bool {
        self.0.is_sign_negative()
    }

    fn pcmp(&self, other: &F32) -> Option<std::cmp::Ordering> {
        self.0.partial_cmp(&other.0)
    }
}

#[test]
fn float_total_order_concrete() {
    let mut v: Vec<F64> = vec![
        F64(3.0),
        F64(-0.0),
        F64(f64::NAN),
        F64(-1.0),
        F64(0.0),
        F64(f64::INFINITY),
        F64(f64::NEG_INFINITY),
        F64(f64::NAN),
    ];
    sort_floats(&mut v);
    assert_eq!(v[0].0, f64::NEG_INFINITY);
    assert_eq!(v[1].0, -1.0);
    assert_eq!(v[2].0, 0.0);
    assert!(v[2].0.is_sign_negative(), "negative zero must come first");
    assert_eq!(v[3].0, 0.0);
    assert!(!v[3].0.is_sign_negative());
    assert_eq!(v[4].0, 3.0);
    assert_eq!(v[5].0, f64::INFINITY);
    assert!(v[6].0.is_nan());
    assert!(v[7].0.is_nan());
}

#[test]
fn float_sort_no_nans() {
    let mut v: Vec<F64> = vec![F64(2.5), F64(-3.5), F64(0.25), F64(-0.125)];
    sort_floats(&mut v);
    let got: Vec<f64> = v.iter().map(|x| x.0).collect();
    assert_eq!(got, vec![-3.5, -0.125, 0.25, 2.5]);
}

#[test]
fn float_sort_all_nans() {
    let mut v: Vec<F64> = vec![F64(f64::NAN), F64(f64::NAN), F64(f64::NAN)];
    sort_floats(&mut v);
    assert!(v.iter().all(|x| x.0.is_nan()));
    assert_eq!(v.len(), 3);
}

#[test]
fn float_sort_zeros_only() {
    let mut v: Vec<F64> = vec![F64(0.0), F64(-0.0), F64(0.0), F64(-0.0), F64(-0.0)];
    sort_floats(&mut v);
    let signs: Vec<bool> = v.iter().map(|x| x.0.is_sign_negative()).collect();
    assert_eq!(signs, vec![true, true, true, false, false]);
    assert!(v.iter().all(|x| x.0 == 0.0));
}

#[test]
fn float_sort_f32() {
    let mut v: Vec<F32> = vec![F32(1.5), F32(f32::NAN), F32(-2.0), F32(-0.0), F32(0.0)];
    sort_floats(&mut v);
    assert_eq!(v[0].0, -2.0);
    assert_eq!(v[1].0, 0.0);
    assert!(v[1].0.is_sign_negative());
    assert_eq!(v[2].0, 0.0);
    assert!(!v[2].0.is_sign_negative());
    assert_eq!(v[3].0, 1.5);
    assert!(v[4].0.is_nan());
}

#[test]
fn float_sort_single_and_empty() {
    let mut e: Vec<F64> = vec![];
    sort_floats(&mut e);
    assert!(e.is_empty());
    let mut s: Vec<F64> = vec![F64(f64::NAN)];
    sort_floats(&mut s);
    assert!(s[0].0.is_nan());
}

#[test]
fn find_first_zero_lower_bound() {
    let v: Vec<F64> = vec![F64(-2.0), F64(-1.0), F64(-0.0), F64(0.0), F64(3.0)];
    assert_eq!(find_first_zero(&v), 2);
    let w: Vec<F64> = vec![F64(1.0), F64(2.0)];
    assert_eq!(find_first_zero(&w), 0);
    let all_neg: Vec<F64> = vec![F64(-3.0), F64(-2.0), F64(-1.0)];
    assert_eq!(find_first_zero(&all_neg), 3);
    let empty: Vec<F64> = vec![];
    assert_eq!(find_first_zero(&empty), 0);
}
