use std::io::Read;
use wikitools::mdx::{adler32, compress_block, mdx_bytes, mdx_header};
use wikitools::xml::{xml_escape, xml_unescape};

fn be_u64(b: &[u8], at: usize) -> u64 {
    u64::from_be_bytes(b[at..at + 8].try_into().unwrap())
}

fn be_u32(b: &[u8], at: usize) -> u32 {
    u32::from_be_bytes(b[at..at + 4].try_into().unwrap())
}

fn be_u16(b: &[u8], at: usize) -> u16 {
    u16::from_be_bytes(b[at..at + 2].try_into().unwrap())
}

/// Reads one MDX block: type 2, the Adler-32 of the contents, then zlib data.
fn read_block(block: &[u8]) -> Vec<u8> {
    assert_eq!(&block[0..4], &[2, 0, 0, 0]);
    let mut out = Vec::new();
    flate2::read::ZlibDecoder::new(&block[8..]).read_to_end(&mut out).unwrap();
    assert_eq!(be_u32(block, 4), adler32(&out));
    out
}

/// A minimal MDX v2 reader: returns the header text and the (key, body) pairs.
fn read_mdx(file: &[u8]) -> (String, Vec<(String, String)>) {
    let hlen = be_u32(file, 0) as usize;
    let hdr = &file[4..4 + hlen];
    assert_eq!(u32::from_le_bytes(file[4 + hlen..8 + hlen].try_into().unwrap()), adler32(hdr));
    let units: Vec<u16> = hdr.chunks(2).map(|c| u16::from_le_bytes([c[0], c[1]])).collect();
    let header = String::from_utf16(&units).unwrap();
    let mut p = 8 + hlen;
    let n_key_blocks = be_u64(file, p) as usize;
    let n = be_u64(file, p + 8) as usize;
    let kidx_len = be_u64(file, p + 16) as usize;
    let kidx_comp_len = be_u64(file, p + 24) as usize;
    let kdata_len = be_u64(file, p + 32) as usize;
    assert_eq!(be_u32(file, p + 40), adler32(&file[p..p + 40]));
    p += 44;
    let kidx = read_block(&file[p..p + kidx_comp_len]);
    assert_eq!(kidx.len(), kidx_len);
    p += kidx_comp_len;
    let mut keys: Vec<(u64, String)> = Vec::new();
    let mut q = 0;
    let mut kp = p;
    for _ in 0..n_key_blocks {
        let count = be_u64(&kidx, q) as usize;
        let fl = be_u16(&kidx, q + 8) as usize;
        let first = kidx[q + 10..q + 10 + fl].to_vec();
        assert_eq!(kidx[q + 10 + fl], 0);
        let r = q + 11 + fl;
        let ll = be_u16(&kidx, r) as usize;
        let last = kidx[r + 2..r + 2 + ll].to_vec();
        let s = r + 3 + ll;
        let comp = be_u64(&kidx, s) as usize;
        q = s + 16;
        let block = read_block(&file[kp..kp + comp]);
        kp += comp;
        let mut b = 0;
        let mut in_block = Vec::new();
        while b < block.len() {
            let off = be_u64(&block, b);
            let end = b + 8 + block[b + 8..].iter().position(|&x| x == 0).unwrap();
            in_block.push((off, String::from_utf8(block[b + 8..end].to_vec()).unwrap()));
            b = end + 1;
        }
        assert_eq!(in_block.len(), count);
        assert_eq!(in_block[0].1.as_bytes(), &first[..]);
        assert_eq!(in_block.last().unwrap().1.as_bytes(), &last[..]);
        keys.extend(in_block);
    }
    assert_eq!(q, kidx.len());
    assert_eq!(kp - p, kdata_len);
    assert_eq!(keys.len(), n);
    p = kp;
    let n_rec_blocks = be_u64(file, p) as usize;
    assert_eq!(be_u64(file, p + 8) as usize, n);
    assert_eq!(be_u64(file, p + 16) as usize, 16 * n_rec_blocks);
    let rdata_len = be_u64(file, p + 24) as usize;
    p += 32;
    let ridx = p;
    p += 16 * n_rec_blocks;
    let mut records = Vec::new();
    let mut rp = p;
    for k in 0..n_rec_blocks {
        let comp = be_u64(file, ridx + 16 * k) as usize;
        let decomp = be_u64(file, ridx + 16 * k + 8) as usize;
        let block = read_block(&file[rp..rp + comp]);
        assert_eq!(block.len(), decomp);
        records.extend(block);
        rp += comp;
    }
    assert_eq!(rp - p, rdata_len);
    assert_eq!(rp, file.len());
    let entries = keys
        .into_iter()
        .map(|(off, key)| {
            let start = off as usize;
            let end = start + records[start..].iter().position(|&x| x == 0).unwrap();
            (key, String::from_utf8(records[start..end].to_vec()).unwrap())
        })
        .collect();
    (header, entries)
}

fn lookup<'a>(entries: &'a [(String, String)], key: &str) -> Option<&'a str> {
    entries.iter().find(|(k, _)| k.eq_ignore_ascii_case(key)).map(|(_, b)| b.as_str())
}

#[test]
fn test_small_mdx() {
    let entries = vec![
        ("hello".to_string(), "<b>hello</b>".to_string()),
        ("world".to_string(), "<b>world</b>".to_string()),
        ("test".to_string(), "<i>test</i>".to_string()),
    ];
    let file = mdx_bytes("TestDict", "A test dictionary", &entries);
    assert!(!file.is_empty());
    let (header, read) = read_mdx(&file);
    assert!(header.contains("Title=\"TestDict\""));
    assert!(header.contains("Description=\"A test dictionary\""));
    assert_eq!(read, entries);
    let hello = lookup(&read, "hello").unwrap();
    assert!(hello.contains("<b>hello</b>"), "expected <b>hello</b> in output");
    // Query case-insensitive
    assert_eq!(lookup(&read, "HELLO"), Some("<b>hello</b>"));
}

#[test]
fn test_medium_mdx() {
    // ~1000 entries — enough to span multiple record blocks
    let mut entries = Vec::new();
    for i in 0..1000 {
        let key = format!("word-{:04}", i);
        entries.push((key.clone(), format!("<span>Definition for {}</span>", key)));
    }
    let file = mdx_bytes("Medium", "Medium test dict", &entries);
    let size = file.len();
    assert!(size > 1000);
    let (_, read) = read_mdx(&file);
    // Query a few entries and verify correct content
    for key in &["word-0000", "word-0500", "word-0999"] {
        let body = lookup(&read, key).unwrap();
        let expected = format!("<span>Definition for {}</span>", key);
        assert!(body.contains(&expected), "query '{}' returned wrong content: {:?}", key, body);
    }
}

#[test]
fn mdx_many_blocks_keep_every_entry() {
    // bodies of 10000 bytes: several record blocks; long keys: several key blocks
    let mut entries = Vec::new();
    for i in 0..40 {
        let key = format!("{:05}-{}", i, "k".repeat(2000));
        entries.push((key, format!("{}", i).repeat(5000 / (1 + format!("{}", i).len()))));
    }
    entries.push(("big".to_string(), "x".repeat(200_000)));
    let file = mdx_bytes("Blocks", "many blocks", &entries);
    let (_, read) = read_mdx(&file);
    assert_eq!(read, entries);
}

#[test]
fn mdx_empty_dictionary() {
    let entries: Vec<(String, String)> = Vec::new();
    let file = mdx_bytes("Empty", "", &entries);
    let (header, read) = read_mdx(&file);
    assert!(header.ends_with("/>\r\n\u{0}"));
    assert!(read.is_empty());
}

#[test]
fn mdx_header_escapes_and_encodes() {
    let h = mdx_header("Tom & \"Jerry\"", "<b>音</b>");
    assert!(h.starts_with("<Dictionary GeneratedByEngineVersion=\"2.0\" RequiredEngineVersion=\"2.0\""));
    assert!(h.contains("Description=\"&lt;b&gt;音&lt;/b&gt;\" Title=\"Tom &amp; &quot;Jerry&quot;\" DataSourceFormat=\"106\""));
    assert!(h.ends_with("RegisterBy=\"\" />\r\n\u{0}"));
    let entries = vec![("🎵".to_string(), "♪".to_string())];
    let (header, read) = read_mdx(&mdx_bytes("𝄞", "d", &entries));
    assert!(header.contains("Title=\"𝄞\""));
    assert_eq!(read, entries);
}

#[test]
fn xml_escape_entities() {
    assert_eq!(xml_escape("a&b\"c<d>e"), "a&amp;b&quot;c&lt;d&gt;e");
    assert_eq!(xml_escape("&amp;"), "&amp;amp;");
    assert_eq!(xml_escape("plain"), "plain");
}

#[test]
fn adler32_values() {
    assert_eq!(adler32(b""), 1);
    assert_eq!(adler32(b"a"), 0x0062_0062);
    assert_eq!(adler32(b"Wikipedia"), 0x11E6_0398);
    let big = vec![0xffu8; 100_000];
    let mut a: u64 = 1;
    let mut b: u64 = 0;
    for &x in &big {
        a = (a + x as u64) % 65521;
        b = (b + a) % 65521;
    }
    assert_eq!(adler32(&big) as u64, (b << 16) | a);
}

#[test]
fn compress_block_layout() {
    let c = compress_block(b"hello hello hello");
    assert_eq!(&c[0..4], &[2, 0, 0, 0]);
    assert_eq!(&c[4..8], &adler32(b"hello hello hello").to_be_bytes());
    assert_eq!(read_block(&c), b"hello hello hello");
}

#[test]
fn xml_unescape_reads_entities() {
    assert_eq!(xml_unescape("a&amp;b&lt;c&gt;d&quot;e&apos;f"), "a&b<c>d\"e'f");
    assert_eq!(xml_unescape("&#233;&#x1F600;&#0000065;&#00000065;"), "é😀A&#00000065;");
    assert_eq!(xml_unescape("&amp;amp;"), "&amp;");
    assert_eq!(xml_unescape(&xml_escape("Tom & \"Jerry\" <x>")), "Tom & \"Jerry\" <x>");
    assert_eq!(xml_unescape("&"), "&");
    assert_eq!(xml_unescape("&#x110000;"), "&#x110000;");
}
