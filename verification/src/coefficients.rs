//! The generator's state as affine forms of the seed value, tabulated.
//!
//! Seeding and drawing only subtract entries, so every entry of the table, and
//! every output, is `a * s + b` modulo `2^31 - 1` for the seed value
//! `s = MSEED - seed`.  The tables below list these forms: the fill chain, the
//! table after each of the four mixing passes, and the first 96 outputs; the
//! proofs check each row against the symbolic generator of
//! [`crate::subtractive`], a few rows at a time.
use vstd::prelude::*;
use crate::subtractive::{
    sub_pair, pair_minus, modulus, seeded, draws, chain_follows, filled, is_pass_of, is_draws_of,
    pass_source, mix, lemma_fill_table, lemma_mix_pass, lemma_draws,
};

verus! {

/// The fill chain: value `j` of the seeding sequence as an affine form of the seed value.
#[verifier::opaque]
pub open spec fn seed_chain(j: int) -> (int, int) {
    if j == 0 {
        (1, 0)
    } else if j == 1 {
        (0, 1)
    } else if j == 2 {
        (1, 2147483646)
    } else if j == 3 {
        (2147483646, 2)
    } else if j == 4 {
        (2, 2147483644)
    } else if j == 5 {
        (2147483644, 5)
    } else if j == 6 {
        (5, 2147483639)
    } else if j == 7 {
        (2147483639, 13)
    } else if j == 8 {
        (13, 2147483626)
    } else if j == 9 {
        (2147483626, 34)
    } else if j == 10 {
        (34, 2147483592)
    } else if j == 11 {
        (2147483592, 89)
    } else if j == 12 {
        (89, 2147483503)
    } else if j == 13 {
        (2147483503, 233)
    } else if j == 14 {
        (233, 2147483270)
    } else if j == 15 {
        (2147483270, 610)
    } else if j == 16 {
        (610, 2147482660)
    } else if j == 17 {
        (2147482660, 1597)
    } else if j == 18 {
        (1597, 2147481063)
    } else if j == 19 {
        (2147481063, 4181)
    } else if j == 20 {
        (4181, 2147476882)
    } else if j == 21 {
        (2147476882, 10946)
    } else if j == 22 {
        (10946, 2147465936)
    } else if j == 23 {
        (2147465936, 28657)
    } else if j == 24 {
        (28657, 2147437279)
    } else if j == 25 {
        (2147437279, 75025)
    } else if j == 26 {
        (75025, 2147362254)
    } else if j == 27 {
        (2147362254, 196418)
    } else if j == 28 {
        (196418, 2147165836)
    } else if j == 29 {
        (2147165836, 514229)
    } else if j == 30 {
        (514229, 2146651607)
    } else if j == 31 {
        (2146651607, 1346269)
    } else if j == 32 {
        (1346269, 2145305338)
    } else if j == 33 {
        (2145305338, 3524578)
    } else if j == 34 {
        (3524578, 2141780760)
    } else if j == 35 {
        (2141780760, 9227465)
    } else if j == 36 {
        (9227465, 2132553295)
    } else if j == 37 {
        (2132553295, 24157817)
    } else if j == 38 {
        (24157817, 2108395478)
    } else if j == 39 {
        (2108395478, 63245986)
    } else if j == 40 {
        (63245986, 2045149492)
    } else if j == 41 {
        (2045149492, 165580141)
    } else if j == 42 {
        (165580141, 1879569351)
    } else if j == 43 {
        (1879569351, 433494437)
    } else if j == 44 {
        (433494437, 1446074914)
    } else if j == 45 {
        (1446074914, 1134903170)
    } else if j == 46 {
        (1134903170, 311171744)
    } else if j == 47 {
        (311171744, 823731426)
    } else if j == 48 {
        (823731426, 1634923965)
    } else if j == 49 {
        (1634923965, 1336291108)
    } else if j == 50 {
        (1336291108, 298632857)
    } else if j == 51 {
        (298632857, 1037658251)
    } else if j == 52 {
        (1037658251, 1408458253)
    } else if j == 53 {
        (1408458253, 1776683645)
    } else if j == 54 {
        (1776683645, 1779258255)
    } else {
        (0, 0)
    }
}

/// Entry `j` of the table after mixing pass 1, as an affine form of the seed value.
#[verifier::opaque]
pub open spec fn after_pass_1(j: int) -> (int, int) {
    if j == 1 {
        (2147476793, 11090)
    } else if j == 2 {
        (167758450, 1876044773)
    } else if j == 3 {
        (370800015, 368225371)
    } else if j == 4 {
        (2147161655, 520994)
    } else if j == 5 {
        (1438625263, 133052716)
    } else if j == 6 {
        (618, 2147482647)
    } else if j == 7 {
        (2132356877, 24475628)
    } else if j == 8 {
        (512559681, 811192541)
    } else if j == 9 {
        (29034, 2147436669)
    } else if j == 10 {
        (1436847449, 1149833522)
    } else if j == 11 {
        (2147483591, 90)
    } else if j == 12 {
        (1363980, 2145276681)
    } else if j == 13 {
        (974963816, 330608731)
    } else if j == 14 {
        (2147481029, 4236)
    } else if j == 15 {
        (64078026, 2043803223)
    } else if j == 16 {
        (1109825401, 739025386)
    } else if j == 17 {
        (2147360657, 199002)
    } else if j == 18 {
        (862819595, 1571677979)
    } else if j == 19 {
        (236, 2147483265)
    } else if j == 20 {
        (2141705735, 9348858)
    } else if j == 21 {
        (1836311903, 1323752222)
    } else if j == 22 {
        (11090, 2147465703)
    } else if j == 23 {
        (1876044773, 439197324)
    } else if j == 24 {
        (2147483625, 34)
    } else if j == 25 {
        (521083, 2146640517)
    } else if j == 26 {
        (130874407, 1309097125)
    } else if j == 27 {
        (1776682645, 1779259873)
    } else if j == 28 {
        (24479809, 2107874484)
    } else if j == 29 {
        (708858386, 2014430928)
    } else if j == 30 {
        (2147436661, 76025)
    } else if j == 31 {
        (1150029940, 286696116)
    } else if j == 32 {
        (1634924055, 1336290962)
    } else if j == 33 {
        (2145276304, 3571556)
    } else if j == 34 {
        (339836196, 629424733)
    } else if j == 35 {
        (4237, 2147476792)
    } else if j == 36 {
        (2043785512, 167787107)
    } else if j == 37 {
        (1172519823, 1816874929)
    } else if j == 38 {
        (199036, 2147161600)
    } else if j == 39 {
        (1570845939, 1439971532)
    } else if j == 40 {
        (1037657869, 1408458871)
    } else if j == 41 {
        (9350455, 2132354293)
    } else if j == 42 {
        (1284664053, 575805667)
    } else if j == 43 {
        (2147465700, 29039)
    } else if j == 44 {
        (439272349, 1436726056)
    } else if j == 45 {
        (311171778, 823731370)
    } else if j == 46 {
        (2146640517, 1364213)
    } else if j == 47 {
        (1309097125, 969260929)
    } else if j == 48 {
        (1619, 2147481029)
    } else if j == 49 {
        (2107874395, 64089116)
    } else if j == 50 {
        (2016609237, 838386527)
    } else if j == 51 {
        (370876027, 368102381)
    } else if j == 52 {
        (286691935, 863340589)
    } else if j == 53 {
        (1438625117, 133052952)
    } else if j == 54 {
        (3571564, 2141704735)
    } else if j == 55 {
        (997453708, 1860787531)
    } else {
        (0, 0)
    }
}

/// Entry `j` of the table after mixing pass 2, as an affine form of the seed value.
#[verifier::opaque]
pub open spec fn after_pass_2(j: int) -> (int, int) {
    if j == 1 {
        (512552738, 811203775)
    } else if j == 2 {
        (169965793, 1872473217)
    } else if j == 3 {
        (30963819, 1886284285)
    } else if j == 4 {
        (2147157418, 527849)
    } else if j == 5 {
        (1542323398, 2112749256)
    } else if j == 6 {
        (974964442, 330607718)
    } else if j == 7 {
        (2132157841, 24797675)
    } else if j == 8 {
        (1089197389, 1518704656)
    } else if j == 9 {
        (1109854812, 738977798)
    } else if j == 10 {
        (1427496994, 1164962876)
    } else if j == 11 {
        (862819538, 1571678070)
    } else if j == 12 {
        (1381927, 2145247642)
    } else if j == 13 {
        (535691467, 1041366322)
    } else if j == 14 {
        (1836309251, 1323756513)
    } else if j == 15 {
        (64921156, 2042439010)
    } else if j == 16 {
        (1948211923, 1917248104)
    } else if j == 17 {
        (2147359038, 201620)
    } else if j == 18 {
        (902428847, 1507588863)
    } else if j == 19 {
        (130874646, 1309096738)
    } else if j == 20 {
        (1770829708, 1788730124)
    } else if j == 21 {
        (1549619968, 460411633)
    } else if j == 22 {
        (708869620, 2014412751)
    } else if j == 23 {
        (1872473209, 444976236)
    } else if j == 24 {
        (1150029917, 286696150)
    } else if j == 25 {
        (1635451992, 1335436742)
    } else if j == 26 {
        (2108392261, 1584107555)
    } else if j == 27 {
        (1745718826, 2040459235)
    } else if j == 28 {
        (24806038, 2107346635)
    } else if j == 29 {
        (1314018635, 2049165319)
    } else if j == 30 {
        (1172472219, 1816951954)
    } else if j == 31 {
        (1165355746, 261898441)
    } else if j == 32 {
        (545726666, 1965069953)
    } else if j == 33 {
        (1035421492, 1412077405)
    } else if j == 34 {
        (1059822849, 1611945504)
    } else if j == 35 {
        (1284668346, 575798722)
    } else if j == 36 {
        (2042403585, 170023112)
    } else if j == 37 {
        (636828356, 775508607)
    } else if j == 38 {
        (311373432, 823405087)
    } else if j == 39 {
        (1505924783, 1545016169)
    } else if j == 40 {
        (1236929593, 1638694414)
    } else if j == 41 {
        (9475064, 2132152673)
    } else if j == 42 {
        (382235206, 1215700451)
    } else if j == 43 {
        (2016591054, 838415948)
    } else if j == 44 {
        (815926288, 1795479579)
    } else if j == 45 {
        (909035457, 363319737)
    } else if j == 46 {
        (1437770897, 134435109)
    } else if j == 47 {
        (1584107563, 524284693)
    } else if j == 48 {
        (997455349, 1860784879)
    } else if j == 49 {
        (472422403, 876136021)
    } else if j == 50 {
        (2055700623, 1401762619)
    } else if j == 51 {
        (772640848, 475126793)
    } else if j == 52 {
        (261885897, 903477601)
    } else if j == 53 {
        (124606482, 231371280)
    } else if j == 54 {
        (978582992, 324752781)
    } else if j == 55 {
        (1979581609, 1598889090)
    } else {
        (0, 0)
    }
}

/// Entry `j` of the table after mixing pass 3, as an affine form of the seed value.
#[verifier::opaque]
pub open spec fn after_pass_3(j: int) -> (int, int) {
    if j == 1 {
        (2114309719, 993617469)
    } else if j == 2 {
        (1282027948, 460395812)
    } else if j == 3 {
        (1118624617, 274338781)
    } else if j == 4 {
        (862489072, 1572212774)
    } else if j == 5 {
        (1647403460, 1942726144)
    } else if j == 6 {
        (338136086, 1702582758)
    } else if j == 7 {
        (1820784409, 1348876235)
    } else if j == 8 {
        (1730756253, 2121172134)
    } else if j == 9 {
        (2020408866, 1247767031)
    } else if j == 10 {
        (1418021930, 1180293850)
    } else if j == 11 {
        (480584332, 355977619)
    } else if j == 12 {
        (132274520, 1306831694)
    } else if j == 13 {
        (1867248826, 1393370390)
    } else if j == 14 {
        (927273794, 960436776)
    } else if j == 15 {
        (774633906, 1908003901)
    } else if j == 16 {
        (364104360, 1392963411)
    } else if j == 17 {
        (1149903689, 286900388)
    } else if j == 18 {
        (430006444, 631452842)
    } else if j == 19 {
        (222657670, 2054817766)
    } else if j == 20 {
        (998188860, 1313603331)
    } else if j == 21 {
        (1287734071, 1704417679)
    } else if j == 22 {
        (584263138, 1783041471)
    } else if j == 23 {
        (893890217, 120223455)
    } else if j == 24 {
        (1317931955, 835290707)
    } else if j == 25 {
        (1668625920, 341819273)
    } else if j == 26 {
        (826364313, 1123711743)
    } else if j == 27 {
        (627094209, 1766120454)
    } else if j == 28 {
        (1309800613, 535133861)
    } else if j == 29 {
        (1814098822, 106439175)
    } else if j == 30 {
        (834336133, 114369196)
    } else if j == 31 {
        (1492054984, 1060505853)
    } else if j == 32 {
        (962454060, 1991381466)
    } else if j == 33 {
        (1162496273, 164310374)
    } else if j == 34 {
        (1789284566, 431651654)
    } else if j == 35 {
        (804084014, 219821103)
    } else if j == 36 {
        (1910129065, 1010675065)
    } else if j == 37 {
        (917063177, 1529621864)
    } else if j == 38 {
        (1531583285, 2010451958)
    } else if j == 39 {
        (731290877, 1784495915)
    } else if j == 40 {
        (872825233, 245731003)
    } else if j == 41 {
        (1007055022, 1845252285)
    } else if j == 42 {
        (2099712409, 584247609)
    } else if j == 43 {
        (1793933384, 931081829)
    } else if j == 44 {
        (1965221075, 481876248)
    } else if j == 45 {
        (1768785033, 806385705)
    } else if j == 46 {
        (853507759, 498877285)
    } else if j == 47 {
        (690217346, 404061238)
    } else if j == 48 {
        (1827007041, 1025494172)
    } else if j == 49 {
        (951280130, 534316748)
    } else if j == 50 {
        (1229336310, 278050876)
    } else if j == 51 {
        (145546639, 856489986)
    } else if j == 52 {
        (1099568931, 368343740)
    } else if j == 53 {
        (457991307, 124932105)
    } else if j == 54 {
        (144246859, 210383585)
    } else if j == 55 {
        (487526625, 538383237)
    } else {
        (0, 0)
    }
}

/// Entry `j` of the table after mixing pass 4, as an affine form of the seed value.
#[verifier::opaque]
pub open spec fn after_pass_4(j: int) -> (int, int) {
    if j == 1 {
        (1151855659, 1149719650)
    } else if j == 2 {
        (119531675, 296085438)
    } else if j == 3 {
        (1476823698, 1990170774)
    } else if j == 4 {
        (58405058, 1352391671)
    } else if j == 5 {
        (1884758042, 932051079)
    } else if j == 6 {
        (1568556556, 172960894)
    } else if j == 7 {
        (289201124, 1485907924)
    } else if j == 8 {
        (999465376, 336676219)
    } else if j == 9 {
        (1147583633, 1002036028)
    } else if j == 10 {
        (410966908, 1482525212)
    } else if j == 11 {
        (528355570, 1919213657)
    } else if j == 12 {
        (485824783, 375749865)
    } else if j == 13 {
        (2049511398, 911494142)
    } else if j == 14 {
        (1305972408, 154051071)
    } else if j == 15 {
        (2068609794, 1409126616)
    } else if j == 16 {
        (1821370661, 988902173)
    } else if j == 17 {
        (1470380295, 1408889863)
    } else if j == 18 {
        (1626209961, 97136094)
    } else if j == 19 {
        (1140805007, 1776766890)
    } else if j == 20 {
        (852642221, 457113345)
    } else if j == 21 {
        (188165140, 1336073939)
    } else if j == 22 {
        (126271831, 1658109366)
    } else if j == 23 {
        (749643358, 2057323517)
    } else if j == 24 {
        (830405330, 296907470)
    } else if j == 25 {
        (516770261, 1339583270)
    } else if j == 26 {
        (706832638, 827626305)
    } else if j == 27 {
        (1297754158, 1923433327)
    } else if j == 28 {
        (1251395555, 1330225837)
    } else if j == 29 {
        (2076824427, 1321871743)
    } else if j == 30 {
        (1413263224, 2088891949)
    } else if j == 31 {
        (1202853860, 1722081576)
    } else if j == 32 {
        (2110472331, 1654705247)
    } else if j == 33 {
        (14912640, 1309757993)
    } else if j == 34 {
        (1378317658, 1096610089)
    } else if j == 35 {
        (275728444, 448091093)
    } else if j == 36 {
        (1424304282, 634925200)
    } else if j == 37 {
        (1015035426, 618127722)
    } else if j == 38 {
        (225610877, 1856400887)
    } else if j == 39 {
        (810164730, 375369299)
    } else if j == 40 {
        (1198938219, 1404312477)
    } else if j == 41 {
        (1684158374, 436362422)
    } else if j == 42 {
        (473502448, 487111515)
    } else if j == 43 {
        (653128377, 1301798586)
    } else if j == 44 {
        (1112578854, 24762903)
    } else if j == 45 {
        (1580619893, 1617795413)
    } else if j == 46 {
        (727235928, 988251566)
    } else if j == 47 {
        (2088057635, 494221368)
    } else if j == 48 {
        (996601711, 728586702)
    } else if j == 49 {
        (434509869, 1342217125)
    } else if j == 50 {
        (522503672, 1597908218)
    } else if j == 51 {
        (995276128, 1080540306)
    } else if j == 52 {
        (1995657023, 1185601550)
    } else if j == 53 {
        (528650527, 950544009)
    } else if j == 54 {
        (878467282, 268975283)
    } else if j == 55 {
        (1432156412, 963785308)
    } else {
        (0, 0)
    }
}

/// The table before mixing (`p == 0`) and after mixing pass `p`, entry `j`.
pub open spec fn pass_table(p: int, j: int) -> (int, int) {
    if p == 0 {
        if j == 55 { (1, 0) } else if 1 <= j <= 54 { seed_chain((21 * j) % 55) } else { (0, 0) }
    } else if p == 1 {
        after_pass_1(j)
    } else if p == 2 {
        after_pass_2(j)
    } else if p == 3 {
        after_pass_3(j)
    } else {
        after_pass_4(j)
    }
}

/// `A[d]`: the seed's coefficient in output `d` of the generator.
#[verifier::opaque]
pub open spec fn multiplier(d: int) -> int {
    if d == 0 {
        1121899819
    } else if d == 1 {
        630111683
    } else if d == 2 {
        1501065279
    } else if d == 3 {
        458365203
    } else if d == 4 {
        969558243
    } else if d == 5 {
        1876681249
    } else if d == 6 {
        962194431
    } else if d == 7 {
        1077359051
    } else if d == 8 {
        265679591
    } else if d == 9 {
        791886952
    } else if d == 10 {
        1582116761
    } else if d == 11 {
        1676571504
    } else if d == 12 {
        1476289907
    } else if d == 13 {
        1117239683
    } else if d == 14 {
        1503178135
    } else if d == 15 {
        1341148412
    } else if d == 16 {
        902714229
    } else if d == 17 {
        1331438416
    } else if d == 18 {
        58133212
    } else if d == 19 {
        831516153
    } else if d == 20 {
        285337308
    } else if d == 21 {
        526856546
    } else if d == 22 {
        362935496
    } else if d == 23 {
        750214563
    } else if d == 24 {
        210465667
    } else if d == 25 {
        1381224997
    } else if d == 26 {
        1846331200
    } else if d == 27 {
        1330597961
    } else if d == 28 {
        593162892
    } else if d == 29 {
        1729496551
    } else if d == 30 {
        792803163
    } else if d == 31 {
        565661843
    } else if d == 32 {
        863554642
    } else if d == 33 {
        53838754
    } else if d == 34 {
        749855384
    } else if d == 35 {
        93067682
    } else if d == 36 {
        1778866589
    } else if d == 37 {
        1463507567
    } else if d == 38 {
        367760674
    } else if d == 39 {
        1219347826
    } else if d == 40 {
        1648614489
    } else if d == 41 {
        596622148
    } else if d == 42 {
        1228675679
    } else if d == 43 {
        243017841
    } else if d == 44 {
        1132230640
    } else if d == 45 {
        1891159862
    } else if d == 46 {
        730619752
    } else if d == 47 {
        33642253
    } else if d == 48 {
        209795643
    } else if d == 49 {
        283831563
    } else if d == 50 {
        249493290
    } else if d == 51 {
        967871855
    } else if d == 52 {
        1560699908
    } else if d == 53 {
        437500212
    } else if d == 54 {
        429989927
    } else if d == 55 {
        595043273
    } else if d == 56 {
        267176187
    } else if d == 57 {
        750850716
    } else if d == 58 {
        247899536
    } else if d == 59 {
        1735816893
    } else if d == 60 {
        30350049
    } else if d == 61 {
        1779080117
    } else if d == 62 {
        484196159
    } else if d == 63 {
        683666687
    } else if d == 64 {
        2146567436
    } else if d == 65 {
        1016454918
    } else if d == 66 {
        813016862
    } else if d == 67 {
        1422451153
    } else if d == 68 {
        367384299
    } else if d == 69 {
        1410110453
    } else if d == 70 {
        1709765470
    } else if d == 71 {
        1586690309
    } else if d == 72 {
        963677742
    } else if d == 73 {
        986269033
    } else if d == 74 {
        1330385311
    } else if d == 75 {
        1836198807
    } else if d == 76 {
        1445664514
    } else if d == 77 {
        119917655
    } else if d == 78 {
        1765467570
    } else if d == 79 {
        466789452
    } else if d == 80 {
        650605245
    } else if d == 81 {
        1812688947
    } else if d == 82 {
        1120802318
    } else if d == 83 {
        309331329
    } else if d == 84 {
        1480003261
    } else if d == 85 {
        1972414955
    } else if d == 86 {
        1152445582
    } else if d == 87 {
        426054430
    } else if d == 88 {
        1771332474
    } else if d == 89 {
        154812111
    } else if d == 90 {
        1973375142
    } else if d == 91 {
        1028015873
    } else if d == 92 {
        1215608031
    } else if d == 93 {
        779427428
    } else if d == 94 {
        1188997777
    } else if d == 95 {
        2017018019
    } else {
        0
    }
}

/// `B[d]`: the constant term of output `d` of the generator.
#[verifier::opaque]
pub open spec fn offset(d: int) -> int {
    if d == 0 {
        1559595546
    } else if d == 1 {
        1755192844
    } else if d == 2 {
        1649316166
    } else if d == 3 {
        1198642031
    } else if d == 4 {
        442452829
    } else if d == 5 {
        1200195957
    } else if d == 6 {
        1945678308
    } else if d == 7 {
        949569752
    } else if d == 8 {
        2099272109
    } else if d == 9 {
        587775847
    } else if d == 10 {
        626863973
    } else if d == 11 {
        1003550677
    } else if d == 12 {
        1358625013
    } else if d == 13 {
        1008269081
    } else if d == 14 {
        2109153755
    } else if d == 15 {
        65212616
    } else if d == 16 {
        1851925803
    } else if d == 17 {
        2137491580
    } else if d == 18 {
        1454235444
    } else if d == 19 {
        675580731
    } else if d == 20 {
        1754296375
    } else if d == 21 {
        1821177336
    } else if d == 22 {
        2130093701
    } else if d == 23 {
        70062080
    } else if d == 24 {
        1503113964
    } else if d == 25 {
        1130186590
    } else if d == 26 {
        2005789796
    } else if d == 27 {
        1476653312
    } else if d == 28 {
        1174277203
    } else if d == 29 {
        174182291
    } else if d == 30 {
        401846963
    } else if d == 31 {
        973512717
    } else if d == 32 {
        638171722
    } else if d == 33 {
        2122881600
    } else if d == 34 {
        1380182313
    } else if d == 35 {
        1638451829
    } else if d == 36 {
        65271247
    } else if d == 37 {
        818200948
    } else if d == 38 {
        736891500
    } else if d == 39 {
        2056119311
    } else if d == 40 {
        1084756724
    } else if d == 41 {
        1537539262
    } else if d == 42 {
        255459778
    } else if d == 43 {
        587232589
    } else if d == 44 {
        1947978014
    } else if d == 45 {
        1706746116
    } else if d == 46 {
        724046315
    } else if d == 47 {
        981848395
    } else if d == 48 {
        315304373
    } else if d == 49 {
        475269784
    } else if d == 50 {
        880625662
    } else if d == 51 {
        1543454120
    } else if d == 52 {
        1331075398
    } else if d == 53 {
        1047903413
    } else if d == 54 {
        418573418
    } else if d == 55 {
        1885901857
    } else if d == 56 {
        1772582790
    } else if d == 57 {
        1579254086
    } else if d == 58 {
        1843011714
    } else if d == 59 {
        1459749886
    } else if d == 60 {
        1341889808
    } else if d == 61 {
        469024996
    } else if d == 62 {
        1922776196
    } else if d == 63 {
        1925089818
    } else if d == 64 {
        185928884
    } else if d == 65 {
        1800834903
    } else if d == 66 {
        365378955
    } else if d == 67 {
        1383227060
    } else if d == 68 {
        1775570415
    } else if d == 69 {
        470701926
    } else if d == 70 {
        2147425016
    } else if d == 71 {
        1033724855
    } else if d == 72 {
        1400600080
    } else if d == 73 {
        1545599780
    } else if d == 74 {
        1738307654
    } else if d == 75 {
        216757113
    } else if d == 76 {
        1565717558
    } else if d == 77 {
        1542861112
    } else if d == 78 {
        269567713
    } else if d == 79 {
        1943851495
    } else if d == 80 {
        406140275
    } else if d == 81 {
        1023941401
    } else if d == 82 {
        1161348939
    } else if d == 83 {
        699007419
    } else if d == 84 {
        1441040276
    } else if d == 85 {
        1005876490
    } else if d == 86 {
        1789920966
    } else if d == 87 {
        1737751956
    } else if d == 88 {
        1704308182
    } else if d == 89 {
        1641764103
    } else if d == 90 {
        2013352686
    } else if d == 91 {
        633500808
    } else if d == 92 {
        1122672881
    } else if d == 93 {
        1424625261
    } else if d == 94 {
        714229503
    } else if d == 95 {
        615731728
    } else {
        0
    }
}

/// Output `d` of the generator as an affine form `(a, b)` of the seed value `s`: `a * s + b`.
#[verifier::opaque]
pub open spec fn draw_table(d: int) -> (int, int) {
    if d == 0 {
        (1025583828, 1639093931)
    } else if d == 1 {
        (1517371964, 386245568)
    } else if d == 2 {
        (646418368, 1693263304)
    } else if d == 3 {
        (1689118444, 12808401)
    } else if d == 4 {
        (1177925404, 104424774)
    } else if d == 5 {
        (270802398, 397011214)
    } else if d == 6 {
        (1185289216, 155682087)
    } else if d == 7 {
        (1070124596, 1162288123)
    } else if d == 8 {
        (1881804056, 1060627726)
    } else if d == 9 {
        (1355596695, 1907927283)
    } else if d == 10 {
        (565366886, 264508410)
    } else if d == 11 {
        (470912143, 1213475519)
    } else if d == 12 {
        (671193740, 1962367700)
    } else if d == 13 {
        (1030243964, 1853443625)
    } else if d == 14 {
        (644305512, 774201416)
    } else if d == 15 {
        (806335235, 370774451)
    } else if d == 16 {
        (1244769418, 1699972623)
    } else if d == 17 {
        (816045231, 1869250442)
    } else if d == 18 {
        (2089350435, 372454413)
    } else if d == 19 {
        (1315967494, 20750923)
    } else if d == 20 {
        (1862146339, 848962424)
    } else if d == 21 {
        (1620627101, 356310780)
    } else if d == 22 {
        (1784548151, 2032560614)
    } else if d == 23 {
        (1397269084, 826595704)
    } else if d == 24 {
        (1937017980, 351331704)
    } else if d == 25 {
        (766258650, 333404937)
    } else if d == 26 {
        (301152447, 1194846625)
    } else if d == 27 {
        (816885686, 2135492359)
    } else if d == 28 {
        (1554320755, 1871447172)
    } else if d == 29 {
        (417987096, 1008351643)
    } else if d == 30 {
        (1354680484, 536480026)
    } else if d == 31 {
        (1581821804, 704161238)
    } else if d == 32 {
        (1283929005, 1040782710)
    } else if d == 33 {
        (2093644893, 132824781)
    } else if d == 34 {
        (1397628263, 956480809)
    } else if d == 35 {
        (2054415965, 248679632)
    } else if d == 36 {
        (368617058, 1072348065)
    } else if d == 37 {
        (683976080, 1843592486)
    } else if d == 38 {
        (1779722973, 270944525)
    } else if d == 39 {
        (928135821, 1007301263)
    } else if d == 40 {
        (498869158, 280680335)
    } else if d == 41 {
        (1550861499, 1472307039)
    } else if d == 42 {
        (918807968, 241170860)
    } else if d == 43 {
        (1904465806, 264319267)
    } else if d == 44 {
        (1015253007, 1353287003)
    } else if d == 45 {
        (256323785, 1922259694)
    } else if d == 46 {
        (1416863895, 679337315)
    } else if d == 47 {
        (2113841394, 1022626724)
    } else if d == 48 {
        (1937688004, 568015709)
    } else if d == 49 {
        (1863652084, 1227133767)
    } else if d == 50 {
        (1897990357, 1528051330)
    } else if d == 51 {
        (1179611792, 1463834755)
    } else if d == 52 {
        (586783739, 578089596)
    } else if d == 53 {
        (1709983435, 248224360)
    } else if d == 54 {
        (1717493720, 114822884)
    } else if d == 55 {
        (1552440374, 1282783151)
    } else if d == 56 {
        (1880307460, 501168601)
    } else if d == 57 {
        (1396632931, 866667600)
    } else if d == 58 {
        (1899584111, 1808960344)
    } else if d == 59 {
        (411666754, 1918503484)
    } else if d == 60 {
        (2117133598, 1349648236)
    } else if d == 61 {
        (368403530, 167673375)
    } else if d == 62 {
        (1663287488, 1438324598)
    } else if d == 63 {
        (1463816960, 52276083)
    } else if d == 64 {
        (916211, 1371447257)
    } else if d == 65 {
        (1131028729, 1707830819)
    } else if d == 66 {
        (1334466785, 172692809)
    } else if d == 67 {
        (725032494, 1829542919)
    } else if d == 68 {
        (1780099348, 896962816)
    } else if d == 69 {
        (737373194, 525521784)
    } else if d == 70 {
        (437718177, 1445910033)
    } else if d == 71 {
        (560793338, 2003863784)
    } else if d == 72 {
        (1183805905, 1598305917)
    } else if d == 73 {
        (1161214614, 1512636797)
    } else if d == 74 {
        (817098336, 1887554235)
    } else if d == 75 {
        (311284840, 1524139032)
    } else if d == 76 {
        (701819133, 115139920)
    } else if d == 77 {
        (2027565992, 1768241347)
    } else if d == 78 {
        (382016077, 1620792348)
    } else if d == 79 {
        (1680694195, 576555657)
    } else if d == 80 {
        (1496878402, 1801551269)
    } else if d == 81 {
        (334794700, 172219901)
    } else if d == 82 {
        (1026681329, 1567476650)
    } else if d == 83 {
        (1838152318, 644313405)
    } else if d == 84 {
        (667480386, 1627783960)
    } else if d == 85 {
        (175068692, 1220128918)
    } else if d == 86 {
        (995038065, 126071642)
    } else if d == 87 {
        (1721429217, 792558350)
    } else if d == 88 {
        (376151173, 18001897)
    } else if d == 89 {
        (1992671536, 1821181305)
    } else if d == 90 {
        (174108505, 1894994678)
    } else if d == 91 {
        (1119467774, 205680465)
    } else if d == 92 {
        (931875616, 34632142)
    } else if d == 93 {
        (1368056219, 499924688)
    } else if d == 94 {
        (958485870, 1805136674)
    } else if d == 95 {
        (130465628, 113006960)
    } else {
        (0, 0)
    }
}

/// The tables `multiplier` and `offset` encode output `d` in terms of the seed itself:
/// with `s = MSEED - seed`, `a * s + b` and `multiplier(d) * seed + offset(d)`
/// agree modulo `2^31 - 1`.
spec fn link_ok(d: int) -> bool {
    let (a, b) = draw_table(d);
    &&& multiplier(d) == (modulus() - a) % modulus()
    &&& offset(d) == (a * 161803398 + b) % modulus()
}

spec fn links_ok(d: int, hi: int) -> bool
    decreases hi - d,
{
    if d >= hi || d < 0 {
        true
    } else {
        link_ok(d) && links_ok(d + 1, hi)
    }
}

proof fn lemma_links_ok(d: int, hi: int)
    requires
        links_ok(d, hi),
        0 <= d,
    ensures
        forall|u: int| d <= u < hi ==> link_ok(u),
    decreases hi - d,
{
    if d < hi {
        lemma_links_ok(d + 1, hi);
    }
}

spec fn chain_ok(t: int, hi: int) -> bool
    decreases hi - t,
{
    if t >= hi || t < 0 {
        true
    } else {
        seed_chain(t) == sub_pair(seed_chain(t - 2), seed_chain(t - 1)) && chain_ok(t + 1, hi)
    }
}

spec fn pass_row_ok(p: int, k: int) -> bool {
    let m = (k + 31) % 55 + 1;
    pass_table(p, k + 1) == sub_pair(
        pass_table(p - 1, k + 1),
        if m <= k {
            pass_table(p, m)
        } else {
            pass_table(p - 1, m)
        },
    )
}

spec fn pass_rows_ok(p: int, k: int, hi: int) -> bool
    decreases hi - k,
{
    if k >= hi || k < 0 {
        true
    } else {
        pass_row_ok(p, k) && pass_rows_ok(p, k + 1, hi)
    }
}

spec fn draw_row_ok(d: int) -> bool {
    draw_table(d) == sub_pair(
        if d >= 55 {
            draw_table(d - 55)
        } else {
            pass_table(4, d + 1)
        },
        if d >= 34 {
            draw_table(d - 34)
        } else {
            pass_table(4, (d + 21) % 55 + 1)
        },
    )
}

spec fn draw_rows_ok(d: int, hi: int) -> bool
    decreases hi - d,
{
    if d >= hi || d < 0 {
        true
    } else {
        draw_row_ok(d) && draw_rows_ok(d + 1, hi)
    }
}

proof fn lemma_chain_ok(t: int, hi: int)
    requires
        chain_ok(t, hi),
        0 <= t,
    ensures
        forall|u: int| t <= u < hi ==> #[trigger] seed_chain(u) == sub_pair(seed_chain(u - 2), seed_chain(u - 1)),
    decreases hi - t,
{
    if t < hi {
        lemma_chain_ok(t + 1, hi);
    }
}

proof fn lemma_pass_rows_ok(p: int, k: int, hi: int)
    requires
        pass_rows_ok(p, k, hi),
        0 <= k,
    ensures
        forall|u: int| k <= u < hi ==> pass_row_ok(p, u),
    decreases hi - k,
{
    if k < hi {
        lemma_pass_rows_ok(p, k + 1, hi);
    }
}

proof fn lemma_draw_rows_ok(d: int, hi: int)
    requires
        draw_rows_ok(d, hi),
        0 <= d,
    ensures
        forall|u: int| d <= u < hi ==> draw_row_ok(u),
    decreases hi - d,
{
    if d < hi {
        lemma_draw_rows_ok(d + 1, hi);
    }
}

proof fn chain_rows_2()
    ensures
        chain_ok(2, 13),
{
    reveal(seed_chain);
    reveal_with_fuel(chain_ok, 12);
}

proof fn chain_rows_13()
    ensures
        chain_ok(13, 24),
{
    reveal(seed_chain);
    reveal_with_fuel(chain_ok, 12);
}

proof fn chain_rows_24()
    ensures
        chain_ok(24, 35),
{
    reveal(seed_chain);
    reveal_with_fuel(chain_ok, 12);
}

proof fn chain_rows_35()
    ensures
        chain_ok(35, 46),
{
    reveal(seed_chain);
    reveal_with_fuel(chain_ok, 12);
}

proof fn chain_rows_46()
    ensures
        chain_ok(46, 55),
{
    reveal(seed_chain);
    reveal_with_fuel(chain_ok, 10);
}

#[verifier::spinoff_prover]
proof fn pass_1_rows_0()
    ensures
        pass_rows_ok(1, 0, 11),
{
    reveal(seed_chain);
    reveal(after_pass_1);
    reveal_with_fuel(pass_rows_ok, 12);
}

#[verifier::spinoff_prover]
proof fn pass_1_rows_11()
    ensures
        pass_rows_ok(1, 11, 22),
{
    reveal(seed_chain);
    reveal(after_pass_1);
    reveal_with_fuel(pass_rows_ok, 12);
}

#[verifier::spinoff_prover]
proof fn pass_1_rows_22()
    ensures
        pass_rows_ok(1, 22, 33),
{
    reveal(seed_chain);
    reveal(after_pass_1);
    reveal_with_fuel(pass_rows_ok, 12);
}

#[verifier::spinoff_prover]
proof fn pass_1_rows_33()
    ensures
        pass_rows_ok(1, 33, 44),
{
    reveal(seed_chain);
    reveal(after_pass_1);
    reveal_with_fuel(pass_rows_ok, 12);
}

#[verifier::spinoff_prover]
proof fn pass_1_rows_44()
    ensures
        pass_rows_ok(1, 44, 55),
{
    reveal(seed_chain);
    reveal(after_pass_1);
    reveal_with_fuel(pass_rows_ok, 12);
}

#[verifier::spinoff_prover]
proof fn pass_2_rows_0()
    ensures
        pass_rows_ok(2, 0, 11),
{
    reveal(after_pass_1);
    reveal(after_pass_2);
    reveal_with_fuel(pass_rows_ok, 12);
}

#[verifier::spinoff_prover]
proof fn pass_2_rows_11()
    ensures
        pass_rows_ok(2, 11, 22),
{
    reveal(after_pass_1);
    reveal(after_pass_2);
    reveal_with_fuel(pass_rows_ok, 12);
}

#[verifier::spinoff_prover]
proof fn pass_2_rows_22()
    ensures
        pass_rows_ok(2, 22, 33),
{
    reveal(after_pass_1);
    reveal(after_pass_2);
    reveal_with_fuel(pass_rows_ok, 12);
}

#[verifier::spinoff_prover]
proof fn pass_2_rows_33()
    ensures
        pass_rows_ok(2, 33, 44),
{
    reveal(after_pass_1);
    reveal(after_pass_2);
    reveal_with_fuel(pass_rows_ok, 12);
}

#[verifier::spinoff_prover]
proof fn pass_2_rows_44()
    ensures
        pass_rows_ok(2, 44, 55),
{
    reveal(after_pass_1);
    reveal(after_pass_2);
    reveal_with_fuel(pass_rows_ok, 12);
}

#[verifier::spinoff_prover]
proof fn pass_3_rows_0()
    ensures
        pass_rows_ok(3, 0, 11),
{
    reveal(after_pass_2);
    reveal(after_pass_3);
    reveal_with_fuel(pass_rows_ok, 12);
}

#[verifier::spinoff_prover]
proof fn pass_3_rows_11()
    ensures
        pass_rows_ok(3, 11, 22),
{
    reveal(after_pass_2);
    reveal(after_pass_3);
    reveal_with_fuel(pass_rows_ok, 12);
}

#[verifier::spinoff_prover]
proof fn pass_3_rows_22()
    ensures
        pass_rows_ok(3, 22, 33),
{
    reveal(after_pass_2);
    reveal(after_pass_3);
    reveal_with_fuel(pass_rows_ok, 12);
}

#[verifier::spinoff_prover]
proof fn pass_3_rows_33()
    ensures
        pass_rows_ok(3, 33, 44),
{
    reveal(after_pass_2);
    reveal(after_pass_3);
    reveal_with_fuel(pass_rows_ok, 12);
}

#[verifier::spinoff_prover]
proof fn pass_3_rows_44()
    ensures
        pass_rows_ok(3, 44, 55),
{
    reveal(after_pass_2);
    reveal(after_pass_3);
    reveal_with_fuel(pass_rows_ok, 12);
}

#[verifier::spinoff_prover]
proof fn pass_4_rows_0()
    ensures
        pass_rows_ok(4, 0, 11),
{
    reveal(after_pass_3);
    reveal(after_pass_4);
    reveal_with_fuel(pass_rows_ok, 12);
}

#[verifier::spinoff_prover]
proof fn pass_4_rows_11()
    ensures
        pass_rows_ok(4, 11, 22),
{
    reveal(after_pass_3);
    reveal(after_pass_4);
    reveal_with_fuel(pass_rows_ok, 12);
}

#[verifier::spinoff_prover]
proof fn pass_4_rows_22()
    ensures
        pass_rows_ok(4, 22, 33),
{
    reveal(after_pass_3);
    reveal(after_pass_4);
    reveal_with_fuel(pass_rows_ok, 12);
}

#[verifier::spinoff_prover]
proof fn pass_4_rows_33()
    ensures
        pass_rows_ok(4, 33, 44),
{
    reveal(after_pass_3);
    reveal(after_pass_4);
    reveal_with_fuel(pass_rows_ok, 12);
}

#[verifier::spinoff_prover]
proof fn pass_4_rows_44()
    ensures
        pass_rows_ok(4, 44, 55),
{
    reveal(after_pass_3);
    reveal(after_pass_4);
    reveal_with_fuel(pass_rows_ok, 12);
}

#[verifier::spinoff_prover]
proof fn draw_rows_0()
    ensures
        draw_rows_ok(0, 6),
{
    reveal(after_pass_4);
    reveal(draw_table);
    reveal_with_fuel(draw_rows_ok, 7);
}

#[verifier::spinoff_prover]
proof fn draw_rows_6()
    ensures
        draw_rows_ok(6, 12),
{
    reveal(after_pass_4);
    reveal(draw_table);
    reveal_with_fuel(draw_rows_ok, 7);
}

#[verifier::spinoff_prover]
proof fn draw_rows_12()
    ensures
        draw_rows_ok(12, 18),
{
    reveal(after_pass_4);
    reveal(draw_table);
    reveal_with_fuel(draw_rows_ok, 7);
}

#[verifier::spinoff_prover]
proof fn draw_rows_18()
    ensures
        draw_rows_ok(18, 24),
{
    reveal(after_pass_4);
    reveal(draw_table);
    reveal_with_fuel(draw_rows_ok, 7);
}

#[verifier::spinoff_prover]
proof fn draw_rows_24()
    ensures
        draw_rows_ok(24, 30),
{
    reveal(after_pass_4);
    reveal(draw_table);
    reveal_with_fuel(draw_rows_ok, 7);
}

#[verifier::spinoff_prover]
proof fn draw_rows_30()
    ensures
        draw_rows_ok(30, 36),
{
    reveal(after_pass_4);
    reveal(draw_table);
    reveal_with_fuel(draw_rows_ok, 7);
}

#[verifier::spinoff_prover]
proof fn draw_rows_36()
    ensures
        draw_rows_ok(36, 42),
{
    reveal(after_pass_4);
    reveal(draw_table);
    reveal_with_fuel(draw_rows_ok, 7);
}

#[verifier::spinoff_prover]
proof fn draw_rows_42()
    ensures
        draw_rows_ok(42, 48),
{
    reveal(after_pass_4);
    reveal(draw_table);
    reveal_with_fuel(draw_rows_ok, 7);
}

#[verifier::spinoff_prover]
proof fn draw_rows_48()
    ensures
        draw_rows_ok(48, 54),
{
    reveal(after_pass_4);
    reveal(draw_table);
    reveal_with_fuel(draw_rows_ok, 7);
}

#[verifier::spinoff_prover]
proof fn draw_rows_54()
    ensures
        draw_rows_ok(54, 60),
{
    reveal(after_pass_4);
    reveal(draw_table);
    reveal_with_fuel(draw_rows_ok, 7);
}

#[verifier::spinoff_prover]
proof fn draw_rows_60()
    ensures
        draw_rows_ok(60, 66),
{
    reveal(after_pass_4);
    reveal(draw_table);
    reveal_with_fuel(draw_rows_ok, 7);
}

#[verifier::spinoff_prover]
proof fn draw_rows_66()
    ensures
        draw_rows_ok(66, 72),
{
    reveal(after_pass_4);
    reveal(draw_table);
    reveal_with_fuel(draw_rows_ok, 7);
}

#[verifier::spinoff_prover]
proof fn draw_rows_72()
    ensures
        draw_rows_ok(72, 78),
{
    reveal(after_pass_4);
    reveal(draw_table);
    reveal_with_fuel(draw_rows_ok, 7);
}

#[verifier::spinoff_prover]
proof fn draw_rows_78()
    ensures
        draw_rows_ok(78, 84),
{
    reveal(after_pass_4);
    reveal(draw_table);
    reveal_with_fuel(draw_rows_ok, 7);
}

#[verifier::spinoff_prover]
proof fn draw_rows_84()
    ensures
        draw_rows_ok(84, 90),
{
    reveal(after_pass_4);
    reveal(draw_table);
    reveal_with_fuel(draw_rows_ok, 7);
}

#[verifier::spinoff_prover]
proof fn draw_rows_90()
    ensures
        draw_rows_ok(90, 96),
{
    reveal(after_pass_4);
    reveal(draw_table);
    reveal_with_fuel(draw_rows_ok, 7);
}

#[verifier::spinoff_prover]
proof fn link_rows_0()
    ensures
        links_ok(0, 8),
{
    reveal(draw_table);
    reveal(multiplier);
    reveal(offset);
    reveal_with_fuel(links_ok, 9);
}

#[verifier::spinoff_prover]
proof fn link_rows_8()
    ensures
        links_ok(8, 16),
{
    reveal(draw_table);
    reveal(multiplier);
    reveal(offset);
    reveal_with_fuel(links_ok, 9);
}

#[verifier::spinoff_prover]
proof fn link_rows_16()
    ensures
        links_ok(16, 24),
{
    reveal(draw_table);
    reveal(multiplier);
    reveal(offset);
    reveal_with_fuel(links_ok, 9);
}

#[verifier::spinoff_prover]
proof fn link_rows_24()
    ensures
        links_ok(24, 32),
{
    reveal(draw_table);
    reveal(multiplier);
    reveal(offset);
    reveal_with_fuel(links_ok, 9);
}

#[verifier::spinoff_prover]
proof fn link_rows_32()
    ensures
        links_ok(32, 40),
{
    reveal(draw_table);
    reveal(multiplier);
    reveal(offset);
    reveal_with_fuel(links_ok, 9);
}

#[verifier::spinoff_prover]
proof fn link_rows_40()
    ensures
        links_ok(40, 48),
{
    reveal(draw_table);
    reveal(multiplier);
    reveal(offset);
    reveal_with_fuel(links_ok, 9);
}

#[verifier::spinoff_prover]
proof fn link_rows_48()
    ensures
        links_ok(48, 56),
{
    reveal(draw_table);
    reveal(multiplier);
    reveal(offset);
    reveal_with_fuel(links_ok, 9);
}

#[verifier::spinoff_prover]
proof fn link_rows_56()
    ensures
        links_ok(56, 64),
{
    reveal(draw_table);
    reveal(multiplier);
    reveal(offset);
    reveal_with_fuel(links_ok, 9);
}

#[verifier::spinoff_prover]
proof fn link_rows_64()
    ensures
        links_ok(64, 72),
{
    reveal(draw_table);
    reveal(multiplier);
    reveal(offset);
    reveal_with_fuel(links_ok, 9);
}

#[verifier::spinoff_prover]
proof fn link_rows_72()
    ensures
        links_ok(72, 80),
{
    reveal(draw_table);
    reveal(multiplier);
    reveal(offset);
    reveal_with_fuel(links_ok, 9);
}

#[verifier::spinoff_prover]
proof fn link_rows_80()
    ensures
        links_ok(80, 88),
{
    reveal(draw_table);
    reveal(multiplier);
    reveal(offset);
    reveal_with_fuel(links_ok, 9);
}

#[verifier::spinoff_prover]
proof fn link_rows_88()
    ensures
        links_ok(88, 96),
{
    reveal(draw_table);
    reveal(multiplier);
    reveal(offset);
    reveal_with_fuel(links_ok, 9);
}

/// [`seed_chain`] as a value.
pub open spec fn seed_chain_fn() -> spec_fn(int) -> (int, int) {
    |t: int| seed_chain(t)
}

/// The symbolic chain of the fill phase follows its recurrence.
proof fn lemma_seed_chain()
    ensures
        chain_follows(seed_chain_fn(), pair_minus()),
{
    chain_rows_2();
    lemma_chain_ok(2, 13);
    chain_rows_13();
    lemma_chain_ok(13, 24);
    chain_rows_24();
    lemma_chain_ok(24, 35);
    chain_rows_35();
    lemma_chain_ok(35, 46);
    chain_rows_46();
    lemma_chain_ok(46, 55);
    assert forall|t: int| 2 <= t <= 54 implies #[trigger] seed_chain_fn()(t) == (pair_minus())(
        seed_chain_fn()(t - 2),
        seed_chain_fn()(t - 1),
    ) by {
        assert(seed_chain(t) == sub_pair(seed_chain(t - 2), seed_chain(t - 1)));
    }
}

/// The symbolic table after `p` passes (`p = 0`: after the fill).
pub open spec fn table_seq(p: int) -> Seq<(int, int)> {
    Seq::new(56, |j: int| pass_table(p, j))
}

proof fn lemma_pass_from_rows(p: int)
    requires
        1 <= p <= 4,
        forall|u: int| 0 <= u < 55 ==> pass_row_ok(p, u),
    ensures
        is_pass_of(table_seq(p - 1), table_seq(p), pair_minus()),
{
    assert(pass_table(p, 0) == pass_table(p - 1, 0)) by {
        reveal(after_pass_1);
        reveal(after_pass_2);
        reveal(after_pass_3);
        reveal(after_pass_4);
    }
    assert forall|k: int| 0 <= k < 55 implies #[trigger] table_seq(p)[k + 1] == (pair_minus())(
        table_seq(p - 1)[k + 1],
        pass_source(table_seq(p - 1), table_seq(p), k),
    ) by {
        assert(pass_row_ok(p, k));
    }
}

proof fn lemma_pass_1()
    ensures
        is_pass_of(table_seq(0), table_seq(1), pair_minus()),
{
    pass_1_rows_0();
    lemma_pass_rows_ok(1, 0, 11);
    pass_1_rows_11();
    lemma_pass_rows_ok(1, 11, 22);
    pass_1_rows_22();
    lemma_pass_rows_ok(1, 22, 33);
    pass_1_rows_33();
    lemma_pass_rows_ok(1, 33, 44);
    pass_1_rows_44();
    lemma_pass_rows_ok(1, 44, 55);
    lemma_pass_from_rows(1);
}

proof fn lemma_pass_2()
    ensures
        is_pass_of(table_seq(1), table_seq(2), pair_minus()),
{
    pass_2_rows_0();
    lemma_pass_rows_ok(2, 0, 11);
    pass_2_rows_11();
    lemma_pass_rows_ok(2, 11, 22);
    pass_2_rows_22();
    lemma_pass_rows_ok(2, 22, 33);
    pass_2_rows_33();
    lemma_pass_rows_ok(2, 33, 44);
    pass_2_rows_44();
    lemma_pass_rows_ok(2, 44, 55);
    lemma_pass_from_rows(2);
}

proof fn lemma_pass_3()
    ensures
        is_pass_of(table_seq(2), table_seq(3), pair_minus()),
{
    pass_3_rows_0();
    lemma_pass_rows_ok(3, 0, 11);
    pass_3_rows_11();
    lemma_pass_rows_ok(3, 11, 22);
    pass_3_rows_22();
    lemma_pass_rows_ok(3, 22, 33);
    pass_3_rows_33();
    lemma_pass_rows_ok(3, 33, 44);
    pass_3_rows_44();
    lemma_pass_rows_ok(3, 44, 55);
    lemma_pass_from_rows(3);
}

proof fn lemma_pass_4()
    ensures
        is_pass_of(table_seq(3), table_seq(4), pair_minus()),
{
    pass_4_rows_0();
    lemma_pass_rows_ok(4, 0, 11);
    pass_4_rows_11();
    lemma_pass_rows_ok(4, 11, 22);
    pass_4_rows_22();
    lemma_pass_rows_ok(4, 22, 33);
    pass_4_rows_33();
    lemma_pass_rows_ok(4, 33, 44);
    pass_4_rows_44();
    lemma_pass_rows_ok(4, 44, 55);
    lemma_pass_from_rows(4);
}

/// The symbolic output table.
pub open spec fn draw_seq() -> Seq<(int, int)> {
    Seq::new(96, |d: int| draw_table(d))
}

proof fn lemma_draw_rows()
    ensures
        is_draws_of(table_seq(4), draw_seq(), pair_minus()),
{
    draw_rows_0();
    lemma_draw_rows_ok(0, 6);
    draw_rows_6();
    lemma_draw_rows_ok(6, 12);
    draw_rows_12();
    lemma_draw_rows_ok(12, 18);
    draw_rows_18();
    lemma_draw_rows_ok(18, 24);
    draw_rows_24();
    lemma_draw_rows_ok(24, 30);
    draw_rows_30();
    lemma_draw_rows_ok(30, 36);
    draw_rows_36();
    lemma_draw_rows_ok(36, 42);
    draw_rows_42();
    lemma_draw_rows_ok(42, 48);
    draw_rows_48();
    lemma_draw_rows_ok(48, 54);
    draw_rows_54();
    lemma_draw_rows_ok(54, 60);
    draw_rows_60();
    lemma_draw_rows_ok(60, 66);
    draw_rows_66();
    lemma_draw_rows_ok(66, 72);
    draw_rows_72();
    lemma_draw_rows_ok(72, 78);
    draw_rows_78();
    lemma_draw_rows_ok(78, 84);
    draw_rows_84();
    lemma_draw_rows_ok(84, 90);
    draw_rows_90();
    lemma_draw_rows_ok(90, 96);
    assert forall|d: int| 0 <= d < 96 implies #[trigger] draw_seq()[d] == (pair_minus())(
        if d >= 55 { draw_seq()[d - 55] } else { table_seq(4)[d + 1] },
        if d >= 34 { draw_seq()[d - 34] } else { table_seq(4)[(d + 21) % 55 + 1] },
    ) by {
        assert(draw_row_ok(d));
    }
}

/// Every output form agrees with the coefficient tables.
pub proof fn lemma_coefficient_links()
    ensures
        forall|d: int| 0 <= d < 96 ==> #[trigger] multiplier(d) == (modulus() - draw_table(d).0) % modulus()
            && offset(d) == (draw_table(d).0 * 161803398 + draw_table(d).1) % modulus(),
{
    link_rows_0();
    lemma_links_ok(0, 8);
    link_rows_8();
    lemma_links_ok(8, 16);
    link_rows_16();
    lemma_links_ok(16, 24);
    link_rows_24();
    lemma_links_ok(24, 32);
    link_rows_32();
    lemma_links_ok(32, 40);
    link_rows_40();
    lemma_links_ok(40, 48);
    link_rows_48();
    lemma_links_ok(48, 56);
    link_rows_56();
    lemma_links_ok(56, 64);
    link_rows_64();
    lemma_links_ok(64, 72);
    link_rows_72();
    lemma_links_ok(72, 80);
    link_rows_80();
    lemma_links_ok(80, 88);
    link_rows_88();
    lemma_links_ok(88, 96);
    assert forall|d: int| 0 <= d < 96 implies #[trigger] multiplier(d) == (modulus() - draw_table(d).0) % modulus()
        && offset(d) == (draw_table(d).0 * 161803398 + draw_table(d).1) % modulus() by {
        assert(link_ok(d));
    }
}

/// The table that the symbolic seeding starts from.
pub open spec fn zero_pairs() -> Seq<(int, int)> {
    Seq::new(56, |j: int| (0int, 0int))
}

proof fn lemma_symbolic_seeding()
    ensures
        seeded(zero_pairs(), (1int, 0int), (0int, 1int), pair_minus()) == table_seq(4),
{
    let st0 = zero_pairs().update(55, (1int, 0int));
    let chain = seed_chain_fn();
    lemma_seed_chain();
    assert(chain(0) == (1int, 0int) && chain(1) == (0int, 1int)) by {
        reveal(seed_chain);
    }
    lemma_fill_table(st0, chain, pair_minus());
    assert(filled(st0, chain) =~= table_seq(0));
    lemma_pass_1();
    lemma_pass_2();
    lemma_pass_3();
    lemma_pass_4();
    lemma_mix_pass(table_seq(0), table_seq(1), pair_minus());
    lemma_mix_pass(table_seq(1), table_seq(2), pair_minus());
    lemma_mix_pass(table_seq(2), table_seq(3), pair_minus());
    lemma_mix_pass(table_seq(3), table_seq(4), pair_minus());
    reveal_with_fuel(mix, 5);
}

/// The first 96 outputs of the generator, tracked as affine forms of the seed value
/// (slot 55 starts as `1 * s + 0`, the chain as `0 * s + 1`), are the forms of [`draw_table`].
pub proof fn lemma_symbolic_draws()
    ensures
        draws(seeded(zero_pairs(), (1int, 0int), (0int, 1int), pair_minus()), 0, 96, pair_minus()) == draw_seq(),
{
    lemma_symbolic_seeding();
    lemma_draw_rows();
    lemma_draws(table_seq(4), draw_seq(), pair_minus());
}

} // verus!
