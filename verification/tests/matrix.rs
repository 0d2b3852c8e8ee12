use matrixmult::matrix::{single, ueberlauf_frei, vergleich, zeile_berechnen, zufallswerte};

fn m(zeilen: &[&[u32]]) -> Vec<Vec<u32>> {
    zeilen.iter().map(|z| z.to_vec()).collect()
}

fn referenz(a: &Vec<Vec<u32>>, b: &Vec<Vec<u32>>, n: usize) -> Vec<Vec<u32>> {
    let mut c = vec![vec![0u32; n]; n];
    for i in 0..n {
        for j in 0..n {
            let mut s: u64 = 0;
            for k in 0..n {
                s += a[i][k] as u64 * b[k][j] as u64;
            }
            c[i][j] = s as u32;
        }
    }
    c
}

#[test]
fn single_zwei_mal_zwei() {
    let a = m(&[&[1, 2], &[3, 4]]);
    let b = m(&[&[5, 6], &[7, 8]]);
    let mut c = vec![vec![0; 2]; 2];
    single(&a, &b, &mut c, 2);
    assert_eq!(c, m(&[&[19, 22], &[43, 50]]));
}

#[test]
fn single_laesst_rest_unveraendert() {
    let a = m(&[&[1, 2, 9], &[3, 4, 9], &[9, 9, 9]]);
    let b = m(&[&[5, 6, 9], &[7, 8, 9], &[9, 9, 9]]);
    let mut c = vec![vec![77; 3]; 3];
    single(&a, &b, &mut c, 2);
    assert_eq!(c, m(&[&[19, 22, 77], &[43, 50, 77], &[77, 77, 77]]));
}

#[test]
fn single_leere_matrix() {
    let a: Vec<Vec<u32>> = Vec::new();
    let b: Vec<Vec<u32>> = Vec::new();
    let mut c: Vec<Vec<u32>> = Vec::new();
    single(&a, &b, &mut c, 0);
    assert!(c.is_empty());
}

#[test]
fn single_wie_referenz() {
    let n = 13;
    let a = zufallswerte(n);
    let b = zufallswerte(n);
    let mut c = vec![vec![0; n]; n];
    single(&a, &b, &mut c, n);
    assert_eq!(c, referenz(&a, &b, n));
}

#[test]
fn zeile_einzeln() {
    let a = m(&[&[1, 2], &[3, 4]]);
    let b = m(&[&[5, 6], &[7, 8]]);
    let mut z = vec![0, 0, 5];
    zeile_berechnen(&a, &b, 1, 2, &mut z);
    assert_eq!(z, vec![43, 50, 5]);
}

#[test]
fn vergleich_gleich_und_ungleich() {
    let a = m(&[&[1, 2], &[3, 4]]);
    let b = m(&[&[1, 2], &[3, 5]]);
    assert!(vergleich(&a, &a, 2));
    assert!(!vergleich(&a, &b, 2));
    assert!(vergleich(&a, &b, 1));
    assert!(vergleich(&a, &b, 0));
}

#[test]
fn zufallswerte_form_und_bereich() {
    let n = 20;
    let z = zufallswerte(n);
    assert_eq!(z.len(), n);
    for zeile in &z {
        assert_eq!(zeile.len(), n);
        assert!(zeile.iter().all(|&x| x < 10));
    }
    assert!(zufallswerte(0).is_empty());
}

#[test]
fn zwei_laeufe_vergleichen_gleich() {
    let n = 9;
    let a = zufallswerte(n);
    let b = zufallswerte(n);
    let mut c1 = vec![vec![1; n]; n];
    let mut c2 = vec![vec![2; n]; n];
    single(&a, &b, &mut c1, n);
    single(&a, &b, &mut c2, n);
    assert!(vergleich(&c1, &c2, n));
}

#[test]
fn ueberlauf_pruefung() {
    let a = zufallswerte(30);
    let b = zufallswerte(30);
    assert!(ueberlauf_frei(&a, &b, 30));
    // one large entry: the quick bound fails, the exact sums still fit
    let mut a = vec![vec![1u32; 3]; 3];
    a[0][0] = 1 << 30;
    let b = vec![vec![1u32; 3]; 3];
    assert!(ueberlauf_frei(&a, &b, 3));
    // 3 * 2^31 does not fit
    let a = vec![vec![1u32 << 31; 3]; 3];
    assert!(!ueberlauf_frei(&a, &b, 3));
    // only the leading block counts
    let mut a = vec![vec![1u32; 3]; 3];
    a[2][2] = u32::MAX;
    let mut b = vec![vec![1u32; 3]; 3];
    b[2][2] = u32::MAX;
    assert!(ueberlauf_frei(&a, &b, 2));
    assert!(!ueberlauf_frei(&a, &b, 3));
}
