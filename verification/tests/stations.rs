use std::collections::{BTreeMap, HashSet};

use obrc::hash::fx_hash;
use obrc::inline_table::{key_from_words, probe_key, InlineTable, KEY_SLACK};
use obrc::parse::parse_temp_branchless;
use obrc::swar::{
    find_semi_and_hash, find_semi_and_hash_flat, find_semi_and_hash_flat_raw,
    find_semi_and_hash_scalar, hash_len_raw, line_len_flat, scan_flat_keyed, scan_flat_keyed_neon,
    scan_flat_keyed_neon_win, scan_flat_keyed_pfx, scan_flat_keyed_tz, scan_flat_keyed_vmask,
    scan_flat_keyed_win, LINE_SLACK,
};
use obrc::table::Table;

/// The official stations, with their mean temperatures.
const STATIONS: [(&str, f64); 413] = [
    ("Abha", 18.0),
    ("Abidjan", 26.0),
    ("Abéché", 29.4),
    ("Accra", 26.4),
    ("Addis Ababa", 16.0),
    ("Adelaide", 17.3),
    ("Aden", 29.1),
    ("Ahvaz", 25.4),
    ("Albuquerque", 14.0),
    ("Alexandra", 11.0),
    ("Alexandria", 20.0),
    ("Algiers", 18.2),
    ("Alice Springs", 21.0),
    ("Almaty", 10.0),
    ("Amsterdam", 10.2),
    ("Anadyr", -6.9),
    ("Anchorage", 2.8),
    ("Andorra la Vella", 9.8),
    ("Ankara", 12.0),
    ("Antananarivo", 17.9),
    ("Antsiranana", 25.2),
    ("Arkhangelsk", 1.3),
    ("Ashgabat", 17.1),
    ("Asmara", 15.6),
    ("Assab", 30.5),
    ("Astana", 3.5),
    ("Athens", 19.2),
    ("Atlanta", 17.0),
    ("Auckland", 15.2),
    ("Austin", 20.7),
    ("Baghdad", 22.77),
    ("Baguio", 19.5),
    ("Baku", 15.1),
    ("Baltimore", 13.1),
    ("Bamako", 27.8),
    ("Bangkok", 28.6),
    ("Bangui", 26.0),
    ("Banjul", 26.0),
    ("Barcelona", 18.2),
    ("Bata", 25.1),
    ("Batumi", 14.0),
    ("Beijing", 12.9),
    ("Beirut", 20.9),
    ("Belgrade", 12.5),
    ("Belize City", 26.7),
    ("Benghazi", 19.9),
    ("Bergen", 7.7),
    ("Berlin", 10.3),
    ("Bilbao", 14.7),
    ("Birao", 26.5),
    ("Bishkek", 11.3),
    ("Bissau", 27.0),
    ("Blantyre", 22.2),
    ("Bloemfontein", 15.6),
    ("Boise", 11.4),
    ("Bordeaux", 14.2),
    ("Bosaso", 30.0),
    ("Boston", 10.9),
    ("Bouaké", 26.0),
    ("Bratislava", 10.5),
    ("Brazzaville", 25.0),
    ("Bridgetown", 27.0),
    ("Brisbane", 21.4),
    ("Brussels", 10.5),
    ("Bucharest", 10.8),
    ("Budapest", 11.3),
    ("Bujumbura", 23.8),
    ("Bulawayo", 18.9),
    ("Burnie", 13.1),
    ("Busan", 15.0),
    ("Cabo San Lucas", 23.9),
    ("Cairns", 25.0),
    ("Cairo", 21.4),
    ("Calgary", 4.4),
    ("Canberra", 13.1),
    ("Cape Town", 16.2),
    ("Changsha", 17.4),
    ("Charlotte", 16.1),
    ("Chiang Mai", 25.8),
    ("Chicago", 9.8),
    ("Chihuahua", 18.6),
    ("Chișinău", 10.2),
    ("Chittagong", 25.9),
    ("Chongqing", 18.6),
    ("Christchurch", 12.2),
    ("City of San Marino", 11.8),
    ("Colombo", 27.4),
    ("Columbus", 11.7),
    ("Conakry", 26.4),
    ("Copenhagen", 9.1),
    ("Cotonou", 27.2),
    ("Cracow", 9.3),
    ("Da Lat", 17.9),
    ("Da Nang", 25.8),
    ("Dakar", 24.0),
    ("Dallas", 19.0),
    ("Damascus", 17.0),
    ("Dampier", 26.4),
    ("Dar es Salaam", 25.8),
    ("Darwin", 27.6),
    ("Denpasar", 23.7),
    ("Denver", 10.4),
    ("Detroit", 10.0),
    ("Dhaka", 25.9),
    ("Dikson", -11.1),
    ("Dili", 26.6),
    ("Djibouti", 29.9),
    ("Dodoma", 22.7),
    ("Dolisie", 24.0),
    ("Douala", 26.7),
    ("Dubai", 26.9),
    ("Dublin", 9.8),
    ("Dunedin", 11.1),
    ("Durban", 20.6),
    ("Dushanbe", 14.7),
    ("Edinburgh", 9.3),
    ("Edmonton", 4.2),
    ("El Paso", 18.1),
    ("Entebbe", 21.0),
    ("Erbil", 19.5),
    ("Erzurum", 5.1),
    ("Fairbanks", -2.3),
    ("Fianarantsoa", 17.9),
    ("Flores,  Petén", 26.4),
    ("Frankfurt", 10.6),
    ("Fresno", 17.9),
    ("Fukuoka", 17.0),
    ("Gabès", 19.5),
    ("Gaborone", 21.0),
    ("Gagnoa", 26.0),
    ("Gangtok", 15.2),
    ("Garissa", 29.3),
    ("Garoua", 28.3),
    ("George Town", 27.9),
    ("Ghanzi", 21.4),
    ("Gjoa Haven", -14.4),
    ("Guadalajara", 20.9),
    ("Guangzhou", 22.4),
    ("Guatemala City", 20.4),
    ("Halifax", 7.5),
    ("Hamburg", 9.7),
    ("Hamilton", 13.8),
    ("Hanga Roa", 20.5),
    ("Hanoi", 23.6),
    ("Harare", 18.4),
    ("Harbin", 5.0),
    ("Hargeisa", 21.7),
    ("Hat Yai", 27.0),
    ("Havana", 25.2),
    ("Helsinki", 5.9),
    ("Heraklion", 18.9),
    ("Hiroshima", 16.3),
    ("Ho Chi Minh City", 27.4),
    ("Hobart", 12.7),
    ("Hong Kong", 23.3),
    ("Honiara", 26.5),
    ("Honolulu", 25.4),
    ("Houston", 20.8),
    ("Ifrane", 11.4),
    ("Indianapolis", 11.8),
    ("Iqaluit", -9.3),
    ("Irkutsk", 1.0),
    ("Istanbul", 13.9),
    ("İzmir", 17.9),
    ("Jacksonville", 20.3),
    ("Jakarta", 26.7),
    ("Jayapura", 27.0),
    ("Jerusalem", 18.3),
    ("Johannesburg", 15.5),
    ("Jos", 22.8),
    ("Juba", 27.8),
    ("Kabul", 12.1),
    ("Kampala", 20.0),
    ("Kandi", 27.7),
    ("Kankan", 26.5),
    ("Kano", 26.4),
    ("Kansas City", 12.5),
    ("Karachi", 26.0),
    ("Karonga", 24.4),
    ("Kathmandu", 18.3),
    ("Khartoum", 29.9),
    ("Kingston", 27.4),
    ("Kinshasa", 25.3),
    ("Kolkata", 26.7),
    ("Kuala Lumpur", 27.3),
    ("Kumasi", 26.0),
    ("Kunming", 15.7),
    ("Kuopio", 3.4),
    ("Kuwait City", 25.7),
    ("Kyiv", 8.4),
    ("Kyoto", 15.8),
    ("La Ceiba", 26.2),
    ("La Paz", 23.7),
    ("Lagos", 26.8),
    ("Lahore", 24.3),
    ("Lake Havasu City", 23.7),
    ("Lake Tekapo", 8.7),
    ("Las Palmas de Gran Canaria", 21.2),
    ("Las Vegas", 20.3),
    ("Launceston", 13.1),
    ("Lhasa", 7.6),
    ("Libreville", 25.9),
    ("Lisbon", 17.5),
    ("Livingstone", 21.8),
    ("Ljubljana", 10.9),
    ("Lodwar", 29.3),
    ("Lomé", 26.9),
    ("London", 11.3),
    ("Los Angeles", 18.6),
    ("Louisville", 13.9),
    ("Luanda", 25.8),
    ("Lubumbashi", 20.8),
    ("Lusaka", 19.9),
    ("Luxembourg City", 9.3),
    ("Lviv", 7.8),
    ("Lyon", 12.5),
    ("Madrid", 15.0),
    ("Mahajanga", 26.3),
    ("Makassar", 26.7),
    ("Makurdi", 26.0),
    ("Malabo", 26.3),
    ("Malé", 28.0),
    ("Managua", 27.3),
    ("Manama", 26.5),
    ("Mandalay", 28.0),
    ("Mango", 28.1),
    ("Manila", 28.4),
    ("Maputo", 22.8),
    ("Marrakesh", 19.6),
    ("Marseille", 15.8),
    ("Maun", 22.4),
    ("Medan", 26.5),
    ("Mek'ele", 22.7),
    ("Melbourne", 15.1),
    ("Memphis", 17.2),
    ("Mexicali", 23.1),
    ("Mexico City", 17.5),
    ("Miami", 24.9),
    ("Milan", 13.0),
    ("Milwaukee", 8.9),
    ("Minneapolis", 7.8),
    ("Minsk", 6.7),
    ("Mogadishu", 27.1),
    ("Mombasa", 26.3),
    ("Monaco", 16.4),
    ("Moncton", 6.1),
    ("Monterrey", 22.3),
    ("Montreal", 6.8),
    ("Moscow", 5.8),
    ("Mumbai", 27.1),
    ("Murmansk", 0.6),
    ("Muscat", 28.0),
    ("Mzuzu", 17.7),
    ("N'Djamena", 28.3),
    ("Naha", 23.1),
    ("Nairobi", 17.8),
    ("Nakhon Ratchasima", 27.3),
    ("Napier", 14.6),
    ("Napoli", 15.9),
    ("Nashville", 15.4),
    ("Nassau", 24.6),
    ("Ndola", 20.3),
    ("New Delhi", 25.0),
    ("New Orleans", 20.7),
    ("New York City", 12.9),
    ("Ngaoundéré", 22.0),
    ("Niamey", 29.3),
    ("Nicosia", 19.7),
    ("Niigata", 13.9),
    ("Nouadhibou", 21.3),
    ("Nouakchott", 25.7),
    ("Novosibirsk", 1.7),
    ("Nuuk", -1.4),
    ("Odesa", 10.7),
    ("Odienné", 26.0),
    ("Oklahoma City", 15.9),
    ("Omaha", 10.6),
    ("Oranjestad", 28.1),
    ("Oslo", 5.7),
    ("Ottawa", 6.6),
    ("Ouagadougou", 28.3),
    ("Ouahigouya", 28.6),
    ("Ouarzazate", 18.9),
    ("Oulu", 2.7),
    ("Palembang", 27.3),
    ("Palermo", 18.5),
    ("Palm Springs", 24.5),
    ("Palmerston North", 13.2),
    ("Panama City", 28.0),
    ("Parakou", 26.8),
    ("Paris", 12.3),
    ("Perth", 18.7),
    ("Petropavlovsk-Kamchatsky", 1.9),
    ("Philadelphia", 13.2),
    ("Phnom Penh", 28.3),
    ("Phoenix", 23.9),
    ("Pittsburgh", 10.8),
    ("Podgorica", 15.3),
    ("Pointe-Noire", 26.1),
    ("Pontianak", 27.7),
    ("Port Moresby", 26.9),
    ("Port Sudan", 28.4),
    ("Port Vila", 24.3),
    ("Port-Gentil", 26.0),
    ("Portland (OR)", 12.4),
    ("Porto", 15.7),
    ("Prague", 8.4),
    ("Praia", 24.4),
    ("Pretoria", 18.2),
    ("Pyongyang", 10.8),
    ("Rabat", 17.2),
    ("Rangpur", 24.4),
    ("Reggane", 28.3),
    ("Reykjavík", 4.3),
    ("Riga", 6.2),
    ("Riyadh", 26.0),
    ("Rome", 15.2),
    ("Roseau", 26.2),
    ("Rostov-on-Don", 9.9),
    ("Sacramento", 16.3),
    ("Saint Petersburg", 5.8),
    ("Saint-Pierre", 5.7),
    ("Salt Lake City", 11.6),
    ("San Antonio", 20.8),
    ("San Diego", 17.8),
    ("San Francisco", 14.6),
    ("San Jose", 16.4),
    ("San José", 22.6),
    ("San Juan", 27.2),
    ("San Salvador", 23.1),
    ("Sana'a", 20.0),
    ("Santo Domingo", 25.9),
    ("Sapporo", 8.9),
    ("Sarajevo", 10.1),
    ("Saskatoon", 3.3),
    ("Seattle", 11.3),
    ("Ségou", 28.0),
    ("Seoul", 12.5),
    ("Seville", 19.2),
    ("Shanghai", 16.7),
    ("Singapore", 27.0),
    ("Skopje", 12.4),
    ("Sochi", 14.2),
    ("Sofia", 10.6),
    ("Sokoto", 28.0),
    ("Split", 16.1),
    ("St. John's", 5.0),
    ("St. Louis", 13.9),
    ("Stockholm", 6.6),
    ("Surabaya", 27.1),
    ("Suva", 25.6),
    ("Suwałki", 7.2),
    ("Sydney", 17.7),
    ("Tabora", 23.0),
    ("Tabriz", 12.6),
    ("Taipei", 23.0),
    ("Tallinn", 6.4),
    ("Tamale", 27.9),
    ("Tamanrasset", 21.7),
    ("Tampa", 22.9),
    ("Tashkent", 14.8),
    ("Tauranga", 14.8),
    ("Tbilisi", 12.9),
    ("Tegucigalpa", 21.7),
    ("Tehran", 17.0),
    ("Tel Aviv", 20.0),
    ("Thessaloniki", 16.0),
    ("Thiès", 24.0),
    ("Tijuana", 17.8),
    ("Timbuktu", 28.0),
    ("Tirana", 15.2),
    ("Toamasina", 23.4),
    ("Tokyo", 15.4),
    ("Toliara", 24.1),
    ("Toluca", 12.4),
    ("Toronto", 9.4),
    ("Tripoli", 20.0),
    ("Tromsø", 2.9),
    ("Tucson", 20.9),
    ("Tunis", 18.4),
    ("Ulaanbaatar", -0.4),
    ("Upington", 20.4),
    ("Ürümqi", 7.4),
    ("Vaduz", 10.1),
    ("Valencia", 18.3),
    ("Valletta", 18.8),
    ("Vancouver", 10.4),
    ("Veracruz", 25.4),
    ("Vienna", 10.4),
    ("Vientiane", 25.9),
    ("Villahermosa", 27.1),
    ("Vilnius", 6.0),
    ("Virginia Beach", 15.8),
    ("Vladivostok", 4.9),
    ("Warsaw", 8.5),
    ("Washington, D.C.", 14.6),
    ("Wau", 27.8),
    ("Wellington", 12.9),
    ("Whitehorse", -0.1),
    ("Wichita", 13.9),
    ("Willemstad", 28.0),
    ("Winnipeg", 3.0),
    ("Wrocław", 9.6),
    ("Xi'an", 14.1),
    ("Yakutsk", -8.8),
    ("Yangon", 27.5),
    ("Yaoundé", 23.8),
    ("Yellowknife", -4.3),
    ("Yerevan", 12.4),
    ("Yinchuan", 9.0),
    ("Zagreb", 10.7),
    ("Zanzibar City", 26.0),
    ("Zürich", 9.3),
];

#[test]
fn station_list_is_well_formed() {
    assert_eq!(STATIONS.len(), 413);

    let mut names: Vec<&str> = STATIONS.iter().map(|(n, _)| *n).collect();
    names.sort_unstable();
    let before = names.len();
    names.dedup();
    assert_eq!(names.len(), before, "duplicate station names in the generated list");

    for (name, mean) in &STATIONS {
        assert!(!name.is_empty());
        assert!(name.len() <= 100, "{name} exceeds the 100-byte limit");
        assert!(!name.contains(';') && !name.contains('\n'), "{name} contains a separator");
        assert!((-99.9..=99.9).contains(mean), "{name} has an out-of-range mean {mean}");
    }
}

fn hash(bytes: &[u8]) -> u64 {
    fx_hash(bytes)
}

#[test]
fn zero_padding_does_not_collide() {
    assert_ne!(hash(b"ab"), hash(b"ab\0"));
    assert_ne!(hash(b""), hash(b"\0"));
    assert_ne!(hash(b"abcdefgh"), hash(b"abcdefgh\0"));
}

#[test]
fn station_names_are_collision_free_in_the_low_bits() {
    // v3 indexes a 65536-slot table; check the real key set spreads over those bits.
    let mut seen = HashSet::new();
    for (name, _) in STATIONS {
        seen.insert(hash(name.as_bytes()));
    }
    assert_eq!(seen.len(), STATIONS.len(), "full-hash collision among station names");

    let buckets: HashSet<u64> =
        STATIONS.iter().map(|(n, _)| hash(n.as_bytes()) & 0xFFFF).collect();
    // Birthday bound for 413 keys in 65536 slots predicts ~412 distinct; allow slack.
    assert!(buckets.len() > 400, "poor low-bit spread: {} buckets", buckets.len());
}

/// Pads so the wide load always has its slack in bounds.
fn line(name: &str) -> Vec<u8> {
    let mut v = name.as_bytes().to_vec();
    v.extend_from_slice(b";12.3\n");
    v.extend_from_slice(&[0u8; 32]);
    v
}

#[test]
fn finds_the_delimiter_at_every_name_length() {
    for len in 1..=100usize {
        let name: String = std::iter::repeat('x').take(len).collect();
        let d = line(&name);
        let (semi, _) = find_semi_and_hash(&d, 0);
        assert_eq!(semi, len, "name length {len}");
        assert_eq!(d[semi], b';');
    }
}

#[test]
fn scalar_and_wide_paths_agree() {
    for len in 1..=100usize {
        // Vary the bytes so the hash actually depends on content.
        let name: String = (0..len).map(|i| (b'a' + (i % 26) as u8) as char).collect();
        let d = line(&name);
        assert_eq!(find_semi_and_hash(&d, 0), find_semi_and_hash_scalar(&d, 0));
    }
    for (name, _) in STATIONS {
        let d = line(name);
        assert_eq!(find_semi_and_hash(&d, 0), find_semi_and_hash_scalar(&d, 0), "{name}");
    }
}

/// The flat scan must be a drop-in for the loop: same `;`, same hash, at every length
/// including the 16-byte seam where it hands off to the cold path, and at both ends of
/// the mask (`len & 7 == 0` is the case that would break a naive shift).
#[test]
fn flat_and_loop_paths_agree() {
    for len in 0..=100usize {
        let name: String = (0..len).map(|i| (b'a' + (i % 26) as u8) as char).collect();
        let d = line(&name);
        let want = find_semi_and_hash_scalar(&d, 0);
        assert_eq!(find_semi_and_hash(&d, 0), want, "loop path, length {len}");
        assert_eq!(find_semi_and_hash_flat(&d, 0), want, "flat path, length {len}");
    }
    for (name, _) in STATIONS {
        let d = line(name);
        assert_eq!(find_semi_and_hash_flat(&d, 0), find_semi_and_hash_scalar(&d, 0), "{name}");
    }
}

/// The length-driven hash drops the scan on the claim that it only ever used it to derive
/// the length. Check that against the scan it replaces at every length, including 16 where
/// both fall back, and on every real name.
#[test]
fn length_driven_hash_agrees_with_the_flat_scan() {
    for len in 0..=100usize {
        let name: String = (0..len).map(|i| (b'a' + (i % 26) as u8) as char).collect();
        let d = line(&name);
        let (semi, want) = find_semi_and_hash_flat_raw(&d, 0);
        assert_eq!(semi, len);
        assert_eq!(hash_len_raw(&d, 0, len), want, "length {len}");
    }
    for (name, _) in STATIONS {
        let d = line(name);
        let want = find_semi_and_hash_flat_raw(&d, 0).1;
        assert_eq!(hash_len_raw(&d, 0, name.len()), want, "{name}");
    }
}

/// Under 16 bytes the length alone decides: what the bytes hold, or whether a `;` follows,
/// does not matter.
#[test]
fn length_driven_hash_goes_by_the_length() {
    let d: Vec<u8> = (0..48).map(|i| b"ab;c\nd"[i % 6]).collect();
    for pos in 0..8usize {
        for len in 0..16usize {
            let mut alone: Vec<u8> = d[pos..pos + len].to_vec();
            alone.resize(16, b'#');
            assert_eq!(hash_len_raw(&d, pos, len), hash_len_raw(&alone, 0, len), "{pos} {len}");
        }
    }
}

/// v11 stops building the probe key from memory and takes the scan's masked words
/// instead. That is only sound if the two agree bit for bit, so check them against each
/// other at every length the window covers — 0 and 8 included, where the mask is empty —
/// and on every real name. Also require the scan to decline exactly when the key would be
/// wrong, at 16 and above, since past there the high half is no longer zero.
#[test]
fn the_scans_key_matches_the_one_built_from_memory() {

    let check = |name: &str| {
        let d = line(name);
        match scan_flat_keyed(&d, 0) {
            Some((semi, _, klo, khi)) => {
                assert_eq!(semi, name.len(), "{name:?}");
                assert!(name.len() < 16, "{name:?} should have declined");
                assert_eq!(key_from_words(klo, khi), probe_key(&d, 0, semi), "{name:?}");
            }
            None => assert!(name.len() >= 16, "{name:?} declined but fits the window"),
        }
    };

    for len in 0..=100usize {
        let name: String = (0..len).map(|i| (b'a' + (i % 26) as u8) as char).collect();
        check(&name);
    }
    for (name, _) in STATIONS {
        check(name);
    }
}

/// [`scan_flat_keyed_tz`] claims `8 * (len & 7)` and `tz & 0x38` name the same shift on
/// both sides of the select. The w1 side is where they could differ, because there `len`
/// carries a `+ 8` that `tz` does not — so check every length across the 8-byte seam, plus
/// every real station, plus a window with no `;` in it.
#[test]
fn tz_agrees_with_the_length_driven_mask() {
    let check = |d: &[u8]| {
        assert_eq!(scan_flat_keyed_tz(d, 0), scan_flat_keyed(d, 0), "{:?}", &d[..16]);
    };

    for len in 0..=100usize {
        let name: String = (0..len).map(|i| (b'a' + (i % 26) as u8) as char).collect();
        check(&line(&name));
    }
    for (name, _) in STATIONS {
        check(&line(name));
    }
    check(&[b'x'; 64]);
}

/// [`scan_flat_keyed_neon`] swaps the SWAR masks for a vector compare, which changes the
/// non-zero bytes of the masks from `0x80` to `0xFF`. Everything downstream reads those
/// masks through `trailing_zeros`, so the two forms are equal only if no byte outside the
/// `;` positions ever sets a lower bit — check it the same way as the rest: every length
/// across both 8-byte seams, every real station, and a window with no `;` in it.
#[test]
fn neon_agrees_with_the_swar_masks() {
    let check = |d: &[u8]| {
        assert_eq!(scan_flat_keyed_neon(d, 0), scan_flat_keyed(d, 0), "{:?}", &d[..16]);
    };

    for len in 0..=100usize {
        let name: String = (0..len).map(|i| (b'a' + (i % 26) as u8) as char).collect();
        check(&line(&name));
    }
    for (name, _) in STATIONS {
        check(&line(name));
    }
    check(&[b'x'; 64]);
}

/// The window form of the vector scan is a third copy of the same arithmetic, differing from
/// [`scan_flat_keyed`] in both the load and the compare. Held to it the same way.
#[test]
fn neon_win_agrees_with_the_slice_form() {
    let check = |d: &[u8]| {
        let w: &[u8; 16] = d[..16].try_into().unwrap();
        let want = scan_flat_keyed(d, 0).map(|(semi, h, klo, khi)| (semi, h, klo, khi));
        assert_eq!(scan_flat_keyed_neon_win(w), want, "{:?}", &d[..16]);
    };

    for len in 0..=100usize {
        let name: String = (0..len).map(|i| (b'a' + (i % 26) as u8) as char).collect();
        check(&line(&name));
    }
    for (name, _) in STATIONS {
        check(&line(name));
    }
    check(&[b'x'; 64]);
}

/// [`scan_flat_keyed_vmask`] derives `klo` and `khi` a completely different way: a lane
/// compare against `[0, 1, .. 15]` rather than a shift-and-subtract in a GPR, with no select
/// deciding which of the two words got masked. The claim is that the two agree *bit for
/// bit*, including the hash — so this is the strictest of these differentials and the seam
/// cases matter most. `len == 8` in particular is the one where `khi` is fully zeroed but
/// `short` is still false, which is the case a "mask the non-zero half" shortcut would get
/// wrong.
#[test]
fn vmask_agrees_with_the_scalar_masking() {
    let check = |d: &[u8]| {
        assert_eq!(scan_flat_keyed_vmask(d, 0), scan_flat_keyed(d, 0), "{:?}", &d[..16]);
    };

    for len in 0..=100usize {
        let name: String = (0..len).map(|i| (b'a' + (i % 26) as u8) as char).collect();
        check(&line(&name));
    }
    for (name, _) in STATIONS {
        check(&line(name));
    }
    check(&[b'x'; 64]);
}

/// [`scan_flat_keyed_pfx`] reaches the same two words a fourth way — an inclusive prefix-OR
/// across the compare, then `bic` — and the whole point of it is that no scalar is involved,
/// so the usual "does `trailing_zeros` see the same thing" argument does not cover it. What
/// has to hold instead is that the prefix-OR is *inclusive* and saturates: a `;` at lane 0
/// must zero all sixteen, a `;` at lane 15 must keep fifteen, and a second `;` later in the
/// window must change nothing. Every length across both seams covers all three.
#[test]
fn pfx_agrees_with_the_scalar_masking() {
    let check = |d: &[u8]| {
        assert_eq!(scan_flat_keyed_pfx(d, 0), scan_flat_keyed(d, 0), "{:?}", &d[..16]);
    };

    for len in 0..=100usize {
        let name: String = (0..len).map(|i| (b'a' + (i % 26) as u8) as char).collect();
        check(&line(&name));
    }
    for (name, _) in STATIONS {
        check(&line(name));
    }
    check(&[b'x'; 64]);
}

/// Two `;` inside one window is the case the prefix-OR could plausibly get wrong, since it
/// propagates every match forward rather than just the first.
#[test]
fn pfx_finds_the_first_semicolon_at_an_offset() {
    let mut d = vec![b'q'; 8];
    d.extend_from_slice(b"Abha;1.2\nSaint-Pierre;3.4\n");
    d.resize(d.len() + 32, b'z');
    assert_eq!(scan_flat_keyed_pfx(&d, 8), scan_flat_keyed(&d, 8));
    assert_eq!(scan_flat_keyed_pfx(&d, 17), scan_flat_keyed(&d, 17));

    let mut two = b"ab;cd;ef;gh;ij;k".to_vec();
    two.resize(64, b'z');
    assert_eq!(scan_flat_keyed_pfx(&two, 0), scan_flat_keyed(&two, 0));
}

#[test]
fn vmask_finds_the_first_semicolon_at_an_offset() {
    let mut d = vec![b'q'; 8];
    d.extend_from_slice(b"Abha;1.2\nSaint-Pierre;3.4\n");
    d.resize(d.len() + 32, b'z');
    assert_eq!(scan_flat_keyed_vmask(&d, 8), scan_flat_keyed(&d, 8));
    assert_eq!(scan_flat_keyed_vmask(&d, 17), scan_flat_keyed(&d, 17));
}

/// A `;` in the window is found at the same place whatever the window sits at, and a second
/// `;` past the first must not move the answer — the vector compare sees all sixteen bytes
/// at once, where the SWAR form saw two words.
#[test]
fn neon_finds_the_first_semicolon_at_an_offset() {
    let mut d = vec![b'q'; 8];
    d.extend_from_slice(b"Abha;1.2\nSaint-Pierre;3.4\n");
    d.resize(d.len() + 32, b'z');
    assert_eq!(scan_flat_keyed_neon(&d, 8), scan_flat_keyed(&d, 8));
    assert_eq!(scan_flat_keyed_neon(&d, 17), scan_flat_keyed(&d, 17));
}

/// [`scan_flat_keyed_win`] is a copy of [`scan_flat_keyed`] with a different load. Copies
/// drift, so the equality is a test rather than a comment — over every name length the
/// window can see, every real station, and a window with no `;` at all.
#[test]
fn swar_win_agrees_with_the_slice_form() {
    let check = |d: &[u8]| {
        let w: &[u8; 16] = d[..16].try_into().unwrap();
        let want = scan_flat_keyed(d, 0).map(|(semi, h, klo, khi)| (semi, h, klo, khi));
        let got = scan_flat_keyed_win(w).map(|(len, h, klo, khi)| (len, h, klo, khi));
        assert_eq!(got, want, "{:?}", &d[..16]);
    };

    for len in 0..=100usize {
        let name: String = (0..len).map(|i| (b'a' + (i % 26) as u8) as char).collect();
        check(&line(&name));
    }
    for (name, _) in STATIONS {
        check(&line(name));
    }
    check(&[b'x'; 32]);
}

/// The window is read whole, so bytes past the `;` are in scope for the load even
/// though they must not reach the hash. Vary them and require the hash to hold still.
#[test]
fn flat_ignores_bytes_after_the_delimiter() {
    for len in 0..16usize {
        let name: String = (0..len).map(|i| (b'a' + (i % 26) as u8) as char).collect();
        let mut seen = None;
        for filler in [b'x', b'0', 0x00, 0xFF, b';', b'\n'] {
            let mut d = name.as_bytes().to_vec();
            d.push(b';');
            d.resize(name.len() + 40, filler);
            let got = find_semi_and_hash_flat(&d, 0);
            assert_eq!(got.0, len, "length {len}, filler {filler:#04x}");
            assert_eq!(*seen.get_or_insert(got), got, "length {len}, filler {filler:#04x}");
        }
    }
}

/// [`line_len_flat`] replaces the dot search as the thing that decides where the next row
/// begins, so the only property that matters is that the two never disagree. Check it at
/// every name length the flat path handles, against every shape a value can take, with the
/// bytes after the row varied — a scan that ran past its own terminator would show up here.
#[test]
fn line_len_matches_the_dot_search() {

    for len in 0..16usize {
        let name: String = (0..len).map(|i| (b'a' + (i % 26) as u8) as char).collect();
        for value in ["1.2", "-1.2", "12.3", "-12.3", "0.0", "-0.0", "99.9", "-99.9"] {
            for filler in [b'\n', b'x', b'0', b';', 0x00, 0xFF] {
                let row = format!("{name};{value}\n");
                let want = row.len() - 1;
                let mut d = row.into_bytes();
                d.resize(d.len() + 40, filler);
                let case = format!("{name:?};{value} filler {filler:#04x}");
                assert_eq!(line_len_flat(&d, 0), want, "{case}");
                assert_eq!(parse_temp_branchless(&d, len + 1).1, want + 1, "{case}");
            }
        }
    }

    // `line` appends ";12.3\n", so the terminator sits at name.len() + 5.
    for (name, _) in STATIONS {
        if name.len() < 16 {
            assert_eq!(line_len_flat(&line(name), 0), name.len() + 5, "{name}");
        }
    }
}

/// The two cases the caller has to discard: a row too long to end inside the window, and a
/// window with no `\n` in it at all. Both must come back as the sentinel rather than as
/// some offset that happens to be in range. The pair at 18 and 19 straddles the seam.
#[test]
fn line_len_reports_the_sentinel_when_the_row_does_not_end_in_the_window() {
    assert_eq!(line_len_flat(&line(&"x".repeat(18)), 0), LINE_SLACK - 1);
    assert_eq!(line_len_flat(&line(&"x".repeat(19)), 0), LINE_SLACK);
    assert_eq!(line_len_flat(&line(&"x".repeat(40)), 0), LINE_SLACK);
    assert_eq!(line_len_flat(&[b'x'; 64], 0), LINE_SLACK);
}

#[test]
fn works_at_a_nonzero_offset() {
    let mut d = b"prefix;9.9\n".to_vec();
    let tail = line("Zurich");
    let off = d.len();
    d.extend_from_slice(&tail);
    let (semi, h) = find_semi_and_hash(&d, off);
    assert_eq!(&d[off..semi], b"Zurich");
    assert_eq!(h, find_semi_and_hash(&line("Zurich"), 0).1);
}

#[test]
fn empty_name_hashes_without_reading_past_the_delimiter() {
    let d = line("");
    let (semi, _) = find_semi_and_hash(&d, 0);
    assert_eq!(semi, 0);
}

#[test]
fn station_names_do_not_collide() {
    let hashes: HashSet<u64> =
        STATIONS.iter().map(|(n, _)| find_semi_and_hash(&line(n), 0).1).collect();
    assert_eq!(hashes.len(), STATIONS.len());
}

/// The table takes its slot from the *high* bits, so that is where the spread has to be.
/// `find_semi_and_hash_flat_raw` skips the avalanche and relies on this being true of a
/// bare multiply — the assertion is the whole justification for dropping it, so it has to
/// hold over more than this dataset. Two name sets: the 413 official ones, and 10,000
/// synthetic ones sharing a long prefix, which is the shape the format permits and the one
/// most likely to defeat a hash that only mixes upward. Bit widths run to 18 because the
/// table doubles on demand and 10,000 names reach 2^15.
#[test]
fn high_bits_spread_across_every_table_size() {
    let official: Vec<String> = STATIONS.iter().map(|(n, _)| n.to_string()).collect();
    let adversarial: Vec<String> =
        (0..10_000).map(|i| format!("Sankt_Peterburg_Oblast_{i:05}")).collect();

    for (names, set) in [(&official, "official"), (&adversarial, "prefixed")] {
        for bits in 11..=18u32 {
            let slots = 1usize << bits;
            for (label, hash) in [
                ("finalized", find_semi_and_hash as fn(&[u8], usize) -> (usize, u64)),
                ("raw", find_semi_and_hash_flat_raw),
            ] {
                let buckets: HashSet<u64> =
                    names.iter().map(|n| hash(&line(n), 0).1 >> (64 - bits)).collect();
                // n names into `slots` buckets collide ~n^2/(2*slots) times by chance.
                // Allow twice that and a floor of 5 for the small-n cases.
                let expected = names.len().pow(2) / (2 * slots);
                let floor = names.len().saturating_sub(2 * expected + 5);
                assert!(
                    buckets.len() >= floor,
                    "{set}/{label} at {bits} bits: {} slots for {} names, wanted {floor}",
                    buckets.len(),
                    names.len(),
                );
            }
        }
    }
}

/// Names differing only past the first 8 bytes must hash differently, or the table
/// would probe constantly.
#[test]
fn distinguishes_long_shared_prefixes() {
    let a = find_semi_and_hash(&line("Station_with_long_prefix_A"), 0).1;
    let b = find_semi_and_hash(&line("Station_with_long_prefix_B"), 0).1;
    assert_ne!(a, b);
}

fn collect_offsets(t: &Table, data: &[u8]) -> BTreeMap<String, (i16, i16, i64, u32)> {
    t.iter(data)
        .into_iter()
        .map(|(k, s)| (String::from_utf8(k.to_vec()).unwrap(), (s.min, s.max, s.sum, s.count)))
        .collect()
}

/// Build an input of `name;value` records and feed them all through the table.
///
/// Runs both comparison paths and asserts they agree, so every table test below covers
/// the word-wise compare as well as the slice compare.
fn run_offsets(records: &[(&str, i16)], bits: u32) -> (Vec<u8>, Table) {
    let mut data = Vec::new();
    let mut spans = Vec::new();
    for (name, _) in records {
        spans.push((data.len(), name.len()));
        data.extend_from_slice(name.as_bytes());
    }

    let build = |wide: bool| {
        let mut t = Table::new(bits);
        for (i, (name, value)) in records.iter().enumerate() {
            let (off, len) = spans[i];
            let h = fx_hash(name.as_bytes());
            if wide {
                t.upsert_wide_cmp(&data, off, len, h, *value);
            } else {
                t.upsert(&data, off, len, h, *value);
            }
        }
        t
    };

    let slice_cmp = build(false);
    let wide_cmp = build(true);
    assert_eq!(collect_offsets(&slice_cmp, &data), collect_offsets(&wide_cmp, &data), "compare paths diverged");
    (data, slice_cmp)
}

#[test]
fn handles_the_full_station_list_plus_adversarial_names() {
    let mut records: Vec<(String, i16)> =
        STATIONS.iter().map(|(n, _)| (n.to_string(), 1i16)).collect();
    // Names at the 100-byte limit, differing only in the final byte.
    for i in 0..500 {
        let mut n = "x".repeat(97);
        n.push_str(&format!("{i:03}"));
        records.push((n, 2));
    }
    let refs: Vec<(&str, i16)> = records.iter().map(|(n, v)| (n.as_str(), *v)).collect();
    let (data, t) = run_offsets(&refs, 12);
    assert_eq!(t.len(), refs.len());
    assert_eq!(collect_offsets(&t, &data).len(), refs.len());
}

/// Lays out the records as input rows, with [`KEY_SLACK`] of readable slack past the last
/// one, as the workers guarantee. Returns the bytes and one `(offset, len)` span per record.
fn layout(records: &[(&str, i16)]) -> (Vec<u8>, Vec<(usize, usize)>) {
    let mut data = Vec::new();
    let mut spans = Vec::new();
    for (name, _) in records {
        spans.push((data.len(), name.len()));
        data.extend_from_slice(name.as_bytes());
        data.extend_from_slice(b";12.3\n");
    }
    data.resize(data.len() + KEY_SLACK, 0xAA);
    (data, spans)
}

fn run_inline(records: &[(&str, i16)], bits: u32) -> InlineTable {
    let (data, spans) = layout(records);

    let mut t = InlineTable::new(bits);
    for (i, (name, value)) in records.iter().enumerate() {
        let (off, len) = spans[i];
        t.upsert(&data, off, len, fx_hash(name.as_bytes()), *value);
    }
    t
}

fn collect_inline(t: &InlineTable) -> BTreeMap<String, (i16, i16, i64, u32)> {
    t.iter()
        .into_iter()
        .map(|(k, s)| (String::from_utf8(k.to_vec()).unwrap(), (s.min, s.max, s.sum, s.count)))
        .collect()
}

#[test]
fn agrees_with_the_offset_keyed_table() {
    let mut records: Vec<(String, i16)> =
        STATIONS.iter().map(|(n, _)| (n.to_string(), 1i16)).collect();
    for i in 0..500 {
        records.push((format!("{}{i:03}", "x".repeat(97)), 2));
    }
    for len in 1..=100usize {
        records.push(("y".repeat(len), 3));
    }
    let refs: Vec<(&str, i16)> = records.iter().map(|(n, v)| (n.as_str(), *v)).collect();

    let inline = run_inline(&refs, 12);
    let (data, spans) = layout(&refs);
    let mut plain = Table::new(12);
    for (i, (name, value)) in refs.iter().enumerate() {
        plain.upsert(&data, spans[i].0, name.len(), fx_hash(name.as_bytes()), *value);
    }

    let plain_map: BTreeMap<String, (i16, i16, i64, u32)> = plain
        .iter(&data)
        .into_iter()
        .map(|(k, s)| (String::from_utf8(k.to_vec()).unwrap(), (s.min, s.max, s.sum, s.count)))
        .collect();
    assert_eq!(collect_inline(&inline), plain_map);
    assert_eq!(inline.len(), refs.len());
}
