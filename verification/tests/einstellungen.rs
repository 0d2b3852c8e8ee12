use matrixmult::einstellungen::{dateiname_ergaenzen, konvertieren, modus_text, Einstellungen};

#[test]
fn groessen_bis_zwanzig() {
    assert_eq!(konvertieren(2, 20), vec![2, 4, 6, 8, 10, 16, 20]);
}

#[test]
fn groessen_bis_hundert_mit_zweierpotenzen() {
    assert_eq!(
        konvertieren(2, 100),
        vec![2, 4, 6, 8, 10, 16, 22, 28, 32, 34, 40, 46, 52, 58, 64, 70, 76, 82, 88, 94, 100]
    );
}

#[test]
fn groessen_grosse_schritte() {
    let l = konvertieren(2, 5000);
    for p in [4u32, 8, 16, 32, 64, 128, 256, 512, 1024, 2048, 4096] {
        assert!(l.contains(&p), "{} fehlt", p);
    }
    assert!(l.contains(&1000));
    assert!(l.contains(&1500));
    assert!(!l.contains(&1100));
    assert_eq!(*l.last().unwrap(), 5000);
    assert!(l.windows(2).all(|w| w[0] <= w[1]));
}

#[test]
fn groessen_randfaelle() {
    assert_eq!(konvertieren(2, 2), vec![2]);
    assert_eq!(konvertieren(5, 3), vec![5]);
    assert_eq!(konvertieren(2, 8), vec![2, 4, 6, 8, 8]);
    assert_eq!(konvertieren(2, 4), vec![2, 4, 4]);
    assert_eq!(konvertieren(0, 3000), vec![0, 4, 8, 16, 32, 64, 128, 256, 512, 1000, 1024, 1500, 2000, 2048, 2500, 3000]);
}

#[test]
fn dateiname_bekommt_endung() {
    let mut n = String::from("matrix");
    dateiname_ergaenzen(&mut n);
    assert_eq!(n, "matrix.txt");
    let mut n = String::from("a.TxT");
    dateiname_ergaenzen(&mut n);
    assert_eq!(n, "a.TxT");
    let mut n = String::from("ergebnis.txt");
    dateiname_ergaenzen(&mut n);
    assert_eq!(n, "ergebnis.txt");
    let mut n = String::from("txt");
    dateiname_ergaenzen(&mut n);
    assert_eq!(n, "txt.txt");
    let mut n = String::new();
    dateiname_ergaenzen(&mut n);
    assert_eq!(n, ".txt");
}

#[test]
fn modus_namen() {
    assert_eq!(modus_text(1), "single Thread");
    assert_eq!(modus_text(2), "manuelle Threads");
    assert_eq!(modus_text(3), "Rayon");
    assert_eq!(modus_text(0), "Fehler, Modus nicht bekannt");
    assert_eq!(modus_text(7), "Fehler, Modus nicht bekannt");
}

#[test]
fn einstellungen_felder() {
    let e = Einstellungen { n_max: 20, modus: 2, name: String::from("matrix"), debug: true };
    assert_eq!(konvertieren(2, e.n_max).len(), 7);
    assert!(e.debug);
    assert_eq!(e.modus, 2);
    assert_eq!(e.name, "matrix");
}

#[test]
fn ablauf_der_laeufe() {
    use_ablauf();
}

fn use_ablauf() {
    let plan = matrixmult::ablauf::laeufe(4, &vec![2, 4, 6]);
    assert_eq!(plan, vec![(2, 2), (2, 4), (2, 6), (3, 2), (3, 4), (3, 6), (4, 2), (4, 4), (4, 6)]);
    assert!(matrixmult::ablauf::laeufe(1, &vec![2, 4]).is_empty());
    assert!(matrixmult::ablauf::laeufe(5, &vec![]).is_empty());
    assert_eq!(matrixmult::ablauf::laeufe(2, &vec![7]), vec![(2, 7)]);
}
