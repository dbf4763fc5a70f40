use surreal::{SurrealContext, SurrealFinite};

fn day_gen(c: &mut SurrealContext, days: i32) -> Vec<SurrealFinite> {
    if days == 1 {
        return vec![SurrealFinite::zero(c)];
    }

    let v = day_gen(c, days - 1);
    let mut w = vec![];

    w.push(SurrealFinite::new(c, vec![], vec![v[0]]).unwrap());
    for i in 0..v.len() {
        w.push(v[i]);
        if i != v.len() - 1 {
            w.push(SurrealFinite::new(c, vec![v[i]], vec![v[i + 1]]).unwrap());
        }
    }
    w.push(SurrealFinite::new(c, vec![v[v.len() - 1]], vec![]).unwrap());

    w
}

#[test]
fn leq_theorems() {
    let mut c = SurrealContext::new();
    let v = day_gen(&mut c, 6);

    for i in 0..v.len() {
        assert!(v[i].le(&mut c, v[i]));

        for j in 0..v.len() {
            if !v[i].le(&mut c, v[j]) {
                assert!(v[j].le(&mut c, v[i]));
            }

            for k in 0..v.len() {
                if v[i].le(&mut c, v[j]) && v[j].le(&mut c, v[k]) {
                    assert!(v[i].le(&mut c, v[k]));

                    if v[i].lt(&mut c, v[j]) || v[j].lt(&mut c, v[k]) {
                        assert!(v[i].lt(&mut c, v[k]));
                    }
                }
            }
        }
    }
}

#[test]
fn add_theorems() {
    let mut c = SurrealContext::new();
    let v = day_gen(&mut c, 4);
    let zero = SurrealFinite::zero(&mut c);

    for i in 0..v.len() {
        let s = v[i].add(&mut c, zero);
        assert!(s.eq(&mut c, v[i]));

        for j in 0..v.len() {
            let a = v[i].add(&mut c, v[j]);
            let b = v[j].add(&mut c, v[i]);
            assert!(a.eq(&mut c, b));

            for k in 0..v.len() {
                let ij = v[i].add(&mut c, v[j]);
                let ij_k = ij.add(&mut c, v[k]);
                let jk = v[j].add(&mut c, v[k]);
                let i_jk = v[i].add(&mut c, jk);
                assert!(ij_k.eq(&mut c, i_jk));

                if v[i].eq(&mut c, v[j]) {
                    let ik = v[i].add(&mut c, v[k]);
                    let jk = v[j].add(&mut c, v[k]);
                    assert!(ik.eq(&mut c, jk))
                }
            }
        }
    }
}

#[test]
fn neg_theorems() {
    let mut c = SurrealContext::new();
    let v = day_gen(&mut c, 4);
    let zero = SurrealFinite::zero(&mut c);

    for i in 0..v.len() {
        let d = v[i].sub(&mut c, v[i]);
        assert!(d.eq(&mut c, zero));
        let n = v[i].neg(&mut c);
        let nn = n.neg(&mut c);
        assert!(nn.eq(&mut c, v[i]));

        for j in 0..v.len() {
            let s = v[i].add(&mut c, v[j]);
            let back = s.sub(&mut c, v[j]);
            assert!(back.eq(&mut c, v[i]));
            let neg_sum = s.neg(&mut c);
            let ni = v[i].neg(&mut c);
            let nj = v[j].neg(&mut c);
            let sum_neg = ni.add(&mut c, nj);
            assert!(neg_sum.eq(&mut c, sum_neg));
        }
    }
}

#[test]
fn mul_theorems() {
    let mut c = SurrealContext::new();
    let v = day_gen(&mut c, 3);
    let zero = SurrealFinite::zero(&mut c);
    let one = SurrealFinite::one(&mut c);

    for i in 0..v.len() {
        let p0 = v[i].mul(&mut c, zero);
        assert!(p0.eq(&mut c, zero));
        let p1 = v[i].mul(&mut c, one);
        assert!(p1.eq(&mut c, v[i]));

        for j in 0..v.len() {
            let a = v[i].mul(&mut c, v[j]);
            let b = v[j].mul(&mut c, v[i]);
            assert!(a.eq(&mut c, b));
            let na = a.neg(&mut c);
            let ni = v[i].neg(&mut c);
            let nb = ni.mul(&mut c, v[j]);
            assert!(na.eq(&mut c, nb));
        }
    }
}
