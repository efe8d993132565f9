use veda_scrape::catalog::{
    aggregate_output_path, chapter_of_url, chapter_output_path, get_samhita_urls, samhita_sources,
    section_sources_of, Layout,
};

#[test]
fn samhita_urls_cover_every_prasna() {
    let urls = get_samhita_urls();
    assert_eq!(urls.len(), 43);
    let base = "https://raw.githubusercontent.com/udapaana/raw_etexts/master/vedaH/yajur/taittirIya/mUlam/saMhitA";
    assert_eq!(urls[0], format!("{base}/1/1.md"));
    assert_eq!(urls[6], format!("{base}/1/7.md"));
    assert_eq!(urls[7], format!("{base}/2/1.md"));
    assert_eq!(urls[42], format!("{base}/7/5.md"));
}

#[test]
fn chapter_is_read_back_from_its_url() {
    for url in get_samhita_urls() {
        let (k, p) = chapter_of_url(&url).unwrap();
        let expected = format!(
            "https://raw.githubusercontent.com/udapaana/raw_etexts/master/vedaH/yajur/taittirIya/mUlam/saMhitA/{k}/{p}.md"
        );
        assert_eq!(url, expected);
    }
    assert_eq!(chapter_of_url("x/3.md"), Some((-1, 3)));
    assert_eq!(chapter_of_url("0/1/2/3/4/5/6/7/8/9/10/11/12.md.md"), Some((11, 12)));
    assert_eq!(chapter_of_url("a/b"), None);
    assert_eq!(chapter_of_url("0/1/2/3/4/5/6/7/8/9/10/k/1.md"), None);
}

#[test]
fn output_paths() {
    assert_eq!(aggregate_output_path("samhita/TS"), "./outputs/samhita/TS.json");
    assert_eq!(chapter_output_path(3, 5), "samhita/3.5.json");
    assert_eq!(chapter_output_path(-1, 12), "samhita/-1.12.json");
}

#[test]
fn samhita_sources_in_reading_order() {
    let s = samhita_sources();
    let got: Vec<(Layout, String)> = s.iter().map(|x| (x.layout, x.url.clone())).collect();
    let base = "https://raw.githubusercontent.com/KYVeda/texts/master/saMhitA";
    assert_eq!(
        got,
        vec![
            (Layout::Samhita, format!("{base}/01/TS%201%20Baraha.brh")),
            (Layout::Samhita, format!("{base}/03/TS%203%20Baraha.BRH")),
            (Layout::Samhita, format!("{base}/02/TS%202%20Baraha.brh")),
            (Layout::Samhita, format!("{base}/04/TS%204%20Baraha.BRH")),
            (Layout::Samhita, format!("{base}/05/TS%205%20Baraha.BRH")),
            (Layout::Samhita, format!("{base}/06/TS%206%20Baraha.BRH")),
            (Layout::Samhita, format!("{base}/07/TS%207%20Baraha.BRH")),
        ]
    );
}

#[test]
fn padam_and_kramam_sources() {
    let padam = section_sources_of(Layout::Padam);
    assert_eq!(padam.len(), 44);
    assert!(padam.iter().all(|s| s.layout == Layout::Padam));
    assert_eq!(
        padam[0].url,
        "https://raw.githubusercontent.com/KYVeda/texts/master/TS-Padam/TS-1.1/TS%201.1%20Baraha%20Padam.BRH"
    );
    assert_eq!(
        padam[8].url,
        "https://raw.githubusercontent.com/KYVeda/texts/master/TS-Padam/TS-2.1/TS%202.1%20Baraha%20Padam.BRH"
    );
    let kramam = section_sources_of(Layout::Kramam);
    assert_eq!(kramam.len(), 44);
    assert_eq!(
        kramam[43].url,
        "https://raw.githubusercontent.com/KYVeda/texts/master/TS-Kramam/TS-7.5/TS%207.5%20Krama%20Paaatm%20Sanskrit.BRH"
    );
}
