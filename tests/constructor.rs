use bgpr::as_graph::ASGraph;
use bgpr::constructor::{first_href_with, CAIDAASGraphConstructor, CustomerProviderLink, PeerLink};
use bgpr::dataset::{get_hrefs, unzip_lines};
use bgpr::text::{parse_numbers, parse_u32};

fn lines(text: &str) -> Vec<Vec<u8>> {
    text.lines().map(|l| l.as_bytes().to_vec()).collect()
}

#[test]
fn parses_relationship_file() {
    let text = "# source:topology|BGP\n\
                # input clique: 174 209 3356\n\
                # IXP ASes: 1200 4635 x 5507\n\
                1|11537|0|bgp\n\
                1|21616|-1|bgp\n\
                2|4|-1\n\
                bad|line|-1\n\
                7\n";
    let info = CAIDAASGraphConstructor::new().run(&lines(text));
    assert_eq!(info.input_clique_asns, vec![174, 209, 3356]);
    assert_eq!(info.ixp_asns, vec![1200, 4635, 5507]);
    assert_eq!(
        info.customer_provider_links,
        vec![
            CustomerProviderLink { customer_asn: 21616, provider_asn: 1 },
            CustomerProviderLink { customer_asn: 4, provider_asn: 2 },
        ]
    );
    assert_eq!(info.peer_links, vec![PeerLink { peer1_asn: 1, peer2_asn: 11537 }]);
    let g = ASGraph::new(info).unwrap();
    assert_eq!(g.get_node(21616).unwrap().providers, vec![1]);
    assert!(g.get_node(3356).unwrap().input_clique);
}

#[test]
fn extractors_append_what_a_line_holds() {
    let c = CAIDAASGraphConstructor::new();
    let mut asns = vec![9];
    c.extract_input_clique_asns(b"# input clique: 1 +2  3", &mut asns);
    assert_eq!(asns, vec![9, 1, 2, 3]);
    let mut ixps = Vec::new();
    c.extract_ixp_asns(b"# IXP ASes: a:5 6", &mut ixps);
    assert_eq!(ixps, vec![5, 6]);
    let mut cps = Vec::new();
    c.extract_provider_customers(b"10|20|-1", &mut cps);
    c.extract_provider_customers(b"10|20", &mut cps);
    assert_eq!(cps, vec![CustomerProviderLink { customer_asn: 20, provider_asn: 10 }]);
    let mut peers = Vec::new();
    c.extract_peers(b"30|40", &mut peers);
    c.extract_peers(b"30", &mut peers);
    assert_eq!(peers, vec![PeerLink { peer1_asn: 30, peer2_asn: 40 }]);
}

#[test]
fn decimal_parsing_matches_u32_from_str() {
    for s in ["0", "42", "+7", "4294967295", "4294967296", "", "+", "-1", "1a", " 1", "007"] {
        let b = s.as_bytes();
        assert_eq!(parse_u32(b, 0, b.len()), s.parse::<u32>().ok(), "{}", s);
    }
    assert_eq!(parse_numbers(b"x 1 \t2\n 99999999999 3", 0), vec![1, 2, 3]);
    assert_eq!(parse_numbers(b"12 34", 1), vec![2, 34]);
}

#[test]
fn picks_first_matching_href() {
    let hrefs: Vec<Vec<u8>> = vec![b"../".to_vec(), b"20240101.as-rel2.txt.bz2".to_vec(), b"20240101.x".to_vec()];
    assert_eq!(first_href_with(&hrefs, &b"20240101".to_vec()), Some(1));
    assert_eq!(first_href_with(&hrefs, &b"20230101".to_vec()), None);
}

#[test]
fn index_page_links_are_listed_in_order() {
    let html = "<html><body><a href=\"../\">up</a><a>none</a><p><a href=\"20240101.as-rel2.txt.bz2\">x</a></p></body></html>"
        .to_string();
    assert_eq!(get_hrefs(&html), vec!["../".to_string(), "20240101.as-rel2.txt.bz2".to_string()]);
    assert!(get_hrefs(&"<p>no links</p>".to_string()).is_empty());
}

#[test]
fn downloaded_file_is_decompressed_into_trimmed_lines() {
    let mut enc = bzip2::write::BzEncoder::new(Vec::new(), bzip2::Compression::default());
    std::io::Write::write_all(&mut enc, b"  1|2|-1 \r\n# IXP ASes: 5\n\t3|4|0").unwrap();
    let data = enc.finish().unwrap();
    let got = unzip_lines(&data).unwrap();
    assert_eq!(got, vec![b"1|2|-1".to_vec(), b"# IXP ASes: 5".to_vec(), b"3|4|0".to_vec()]);
    assert!(unzip_lines(&b"not compressed".to_vec()).is_none());
    let info = CAIDAASGraphConstructor::new().run(&got);
    assert_eq!(info.ixp_asns, vec![5]);
    assert_eq!(info.customer_provider_links.len(), 1);
    assert_eq!(info.peer_links.len(), 1);
}
