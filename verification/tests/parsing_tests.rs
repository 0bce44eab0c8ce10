use recommender::parsing::{trim, Record};

const CSV: &str = "DATA_COMPRA,COD_CLIENTE,COD_PRODUTO,NOME_PRODUTO\n\
20240101,99BMYG01,1001,Arroz   \n\
20240102,9O09ND01,1002,Feijao\n\
20240103,99BMYG01,1002,Feijao\n";

#[test]
fn parse() {
    let records = Record::parse(CSV);
    let data_lines = CSV.lines().count() - 1;
    assert_eq!(records.len(), data_lines);
    assert_eq!(
        records[0],
        Record { timestamp: 20240101, user_id: "99BMYG01", item_id: 1001, name: "Arroz" }
    );
    assert_eq!(records[1].user_id, "9O09ND01");
    assert_eq!(records[2].item_id, 1002);
    assert_eq!(records[2].name, "Feijao");
}

#[test]
fn parse_empty_and_header_only() {
    assert!(Record::parse("").is_empty());
    assert!(Record::parse("DATA,CLIENTE,PRODUTO,NOME").is_empty());
    assert!(Record::parse("DATA,CLIENTE,PRODUTO,NOME\n").is_empty());
}

#[test]
fn parse_skips_bad_lines() {
    let csv = "header\n\
               x,A,1,a\n\
               1,A,y,b\n\
               2,A,3\n\
               4294967296,A,1,c\n\
               \n\
               -1,A,1,d\n\
               +,A,1,e\n\
               5,B,4294967295,ok\n";
    let records = Record::parse(csv);
    assert_eq!(records.len(), 1);
    assert_eq!(records[0], Record { timestamp: 5, user_id: "B", item_id: 4294967295, name: "ok" });
}

#[test]
fn parse_plus_sign_crlf_and_extra_fields() {
    let csv = "h\r\n+7,C,+08,  Leite integral \r\n9,,10,name,extra,fields\r\nlast,line";
    let records = Record::parse(csv);
    assert_eq!(records.len(), 2);
    assert_eq!(records[0], Record { timestamp: 7, user_id: "C", item_id: 8, name: "Leite integral" });
    assert_eq!(records[1], Record { timestamp: 9, user_id: "", item_id: 10, name: "name" });
}

#[test]
fn parse_keeps_carriage_return_of_last_line_in_name() {
    let records = Record::parse("h\n1,A,2,n\r");
    assert_eq!(records.len(), 1);
    assert_eq!(records[0].name, "n");
    let records = Record::parse("h\n1,A\r,2,n");
    assert_eq!(records[0].user_id, "A\r");
}

#[test]
fn trim_matches_str_trim() {
    for s in [
        "",
        "   ",
        " a ",
        "\t\n\u{0B}\u{0C}\r x \r\n",
        "\u{A0}nbsp\u{A0}",
        "\u{3000}ideographic\u{2029}",
        "\u{1680}\u{2000}\u{200A}\u{2028}\u{202F}\u{205F}\u{85}mix\u{85}",
        "café ",
        " \u{200B}zero-width is not space\u{200B} ",
        "ção\u{2000}",
    ] {
        assert_eq!(trim(s), s.trim(), "trim of {:?}", s);
    }
}

/// The reading of a line with the standard library's `lines`, `split`,
/// `parse` and `trim`.
fn std_reading(csv: &str) -> Vec<(u32, &str, u32, &str)> {
    let mut lines = csv.lines();
    lines.next();
    lines
        .filter_map(|line| {
            let mut parts = line.split(',');
            let timestamp = parts.next()?.parse().ok()?;
            let user_id = parts.next()?;
            let item_id = parts.next()?.parse().ok()?;
            let name = parts.next()?.trim();
            Some((timestamp, user_id, item_id, name))
        })
        .collect()
}

#[test]
fn parse_agrees_with_std_reading() {
    for csv in [
        "",
        "\n",
        "h",
        "h\n\n\n",
        "h\r\n1,a,2,b\r\n\r\n3,c,4, d \u{3000}\n",
        "h\n00012,x,007,y\n12,x,7\n,x,7,y\n1,x,,y\n1,,1,\n",
        "h\n99999999999,a,1,b\n1,a,99999999999,b\n+1,a,+1,b\n++1,a,1,b\n1 ,a,1,b\n",
        "h\nó,a,1,b\n1,ção,2,\u{A0}pão\u{A0}\r\n1,a,2,b\r",
        "only header\r\n",
    ] {
        let ours: Vec<(u32, &str, u32, &str)> = Record::parse(csv)
            .into_iter()
            .map(|r| (r.timestamp, r.user_id, r.item_id, r.name))
            .collect();
        assert_eq!(ours, std_reading(csv), "csv {:?}", csv);
    }
}
