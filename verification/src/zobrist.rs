//! Zobrist keys for incremental position hashing.
//!
//! The hash of a position is the xor of one key per feature present: a
//! piece on a square, White to move... (see `zobrist_hash` in `board`).
//! The keys are the first 781 outputs of the xorshift64* generator (shifts
//! 13, 7, 17; multiplier 0x2545F4914F6CDD1D) seeded with 0x9E3779B97F4A7C15,
//! taken in this order: the 768 piece-square keys ([colour][kind][square]),
//! the side-to-move key, the four castling keys (White king side, White
//! queen side, Black king side, Black queen side) and the eight en passant
//! file keys.

use vstd::prelude::*;
use crate::types::{Color, PieceType, Square};

verus! {

pub const PIECE_SQUARE_KEYS: [u64; 768] = [
    0x7403d1a28c9a2599, 0xdd70f339ab8ecb5e, 0x7d974833520ea11e, 0x548f4118a4804d24,
    0xfbd60420149738bc, 0x28559c915a2ef1b5, 0xfbe252c6c2543473, 0xadd651ffebe2cc82,
    0xa427061a018da8bf, 0xdf669a5e4aa59f16, 0xf725bd7175e88261, 0x57d221128e681a57,
    0xa11ca46a903072a9, 0x9e0efce1a76df7e6, 0x20ef20874b329683, 0x1e953b717ad7d6e3,
    0xcaf6f86bfc38fad8, 0x261f21a92d107741, 0xaad1f0a2202cbaf3, 0x2b193828305b09d5,
    0x3c7c02a76a222259, 0xecaad1906832e013, 0x6a914524441ccef2, 0x3b1a38ede4728c26,
    0x145693a9b0c89a69, 0x46b144ded683dcd4, 0x279a1f71f8f74727, 0x835c5f3c9ca64f23,
    0x6ade2d9d39b2c619, 0xb03a6ba486310829, 0xe5de98b4dba81e3b, 0xcbf1b8fd39be97c1,
    0x31611aa02b544b32, 0x0fc93a274075d6bc, 0x406926d4414916d9, 0x2f2f9fc6ef855d4a,
    0xf24a40efd2781cde, 0xf1960d2d6fd9ef05, 0x0161a88f56c14047, 0xcb558d9ee3e046a0,
    0x88268ab03ddac6a6, 0xd9562dc48a4c38fa, 0xb39e48a2521c0bf5, 0xb973a7a0b556ce7c,
    0x80a6885f8213882f, 0x1330ae5ce30b34ca, 0x15e5f410ad50e679, 0xc8e74075459d7c41,
    0x5a6c5d4502d36bf5, 0x6bcebcc3cf096bbc, 0x81091fc8b3e084c3, 0x4eff907af188b095,
    0x9ae162b0d18a044e, 0xbaf24b2a5e5ee90a, 0x8743b6853b0160d0, 0x376c36df3b6fd24e,
    0xcda7e667f58c33ce, 0xe2f19f8eeafa81b5, 0x42e13433a3552ad3, 0xf4cf6e31e0e54e6e,
    0x4c7d2d5164b351b7, 0x3c52f623442e51a8, 0xc160df94b602a29b, 0x30f5b4716f0bc7d1,
    0xf6fba72568843307, 0xd4d419f4a15bc3f1, 0x084354610a2c9e86, 0x6a1347e45e63811d,
    0x4d436ead378f1f25, 0x109530fea08ff256, 0xacb160cf1dc88589, 0xf186f4471a9b5125,
    0xc785114308988aaa, 0xaf4b732a2b33052c, 0x9ef5e0ceaceddb80, 0x828e6c41d1a38037,
    0x381bf7536b0c2033, 0x87ae39b0f3e4299c, 0xeb0403fea87e2ba6, 0x5241ed23dfba4e70,
    0x9405aec380817682, 0x6e1f69220e51e353, 0x68fe3e8a310d6d7d, 0x2aabf7bff414084e,
    0xcb8741042bf63952, 0x28438a2926a0ce41, 0x2609c3607fb84d81, 0x7eaf5d988d0b70b4,
    0x836a29ef81e2669e, 0x584fd109106c16a3, 0x8e4ec9df4c7d7f0a, 0x033bce2d3143105c,
    0xca11e127006ec00a, 0x5902f378f0320bf2, 0x999e12a236af0a2c, 0x7d9a288b4eb7322a,
    0xb2173a859e300faf, 0x6f01bb2d6f345e23, 0x2595322021e972fb, 0x0c1ed02d256f73b6,
    0x8494a6ec3f4f357f, 0x0532d4ea34b410cb, 0x793edb7288bb1921, 0x69b0f3f868010a04,
    0x89864e84f090ee15, 0x31ab285d89d04553, 0x58486ffb8a94bab9, 0x7356e78e765c831b,
    0x79f11392991c3090, 0x2f9596eeaac57a1f, 0xa7de1403df11bdc9, 0x318942ed217bbc5a,
    0x1fe893cab3ba8b57, 0x451a82b7f74fa8ff, 0xde4e9c7e8fb6ae84, 0x54f955e7016a89c6,
    0xc548f8f3171edf15, 0x6c6b241d780979d5, 0xec65b1f9e7239f39, 0x4f27adc9169fc812,
    0x767bc42c5aa35b6d, 0xed610326b1e9974c, 0xf46140efdbb1eb7d, 0x2a118cccf3e1380a,
    0x3f2fb2627e727242, 0x8b6bfcca887453a5, 0x0d6eadc1bd650cf9, 0xaed586956a6346d4,
    0x0c6946d283ae2023, 0xbcc60f4bd7c63d77, 0xc5a0e59bfc77dc02, 0xcfca9443d188c8ce,
    0xb2d37d88a9b7553b, 0x3dde6f0a68414e23, 0x6d32bf4684fb611b, 0xca89f5b956c5ff14,
    0x128a04f55783a7ba, 0x9878081152885aa1, 0xee03acf426805841, 0xcd416bc59411986d,
    0x0025aa3a61223446, 0xb5cbc7267cfbeb06, 0x9a44618bf1973e4a, 0xa1f40fb017c5c2ac,
    0x7908ee0b1accc733, 0x6f4b87e30273068e, 0xaf60349f9e9faa34, 0x154889ad23057b91,
    0x50aa8a474aa7e4bd, 0xfb7c48035701f505, 0xfbb30703e0ae3623, 0xf2330feea23e2f4b,
    0x856b43c1c04904a4, 0xc7f348522fdbacab, 0x968b8f0a183f7f6f, 0x272688075352ca2a,
    0xa53cef800d0e33ff, 0x176baafcd5c81b0e, 0x9b3cc03c285bae35, 0xc2701da5d51af312,
    0xf7f085b24ce19397, 0x5dd8a5260049d0cd, 0x3938b2145982e5fb, 0x17c10396c3c80900,
    0xcaf3d479aba8c712, 0xd3a283ac2e2a33ef, 0xa3e3c4899eefc0a9, 0x7dace8d7c57b19ca,
    0x952d5eb19c58ec37, 0x967a1b773bae060b, 0x9f86f3af092d9c55, 0xfdfc7de02289e274,
    0xa152c3c495182168, 0x62eb43a8727089d9, 0x5a32cd50a5220870, 0x9aa16cc9ff9345f6,
    0x990cb2fdb4e3d6c9, 0xa846494f61b30374, 0x453a4ed61fa0a8aa, 0x2b2d41c303567e08,
    0xedc9231aead86ddb, 0x4534d4b8e3fdce99, 0xd1a0911333138698, 0xcf8eb9761573e94a,
    0x330b2ab918f28656, 0x0cb3494d3a4f0e61, 0x25f1e5153383bb0f, 0x8500936ded69153d,
    0xe9a6b470337b11ac, 0xfb039d085fa997a1, 0x926363a921d9d7bb, 0x5874d9e65e4c79ce,
    0xd41021fed2f1b129, 0x93057d2383127975, 0x02330265df520c21, 0x3f643d76adb27962,
    0x1ca8d963a9ce448c, 0xbab94857f321c371, 0x7c57739029a9f417, 0x5fa1668eac8109d4,
    0x2a0c2789a6ddad29, 0xcc538dc379b24ffd, 0x2d9410fd089795cd, 0xf4818611bc3df2e5,
    0x20b274c3c0cdc829, 0xdc525295d18287bb, 0x0ecccd4d027d886e, 0x940522013ad39913,
    0x0710c4c60f23ca60, 0xb54e5df8ed87351f, 0x33ccf0fc916be3b3, 0xab1c1b8dcf377f75,
    0x3f91a7d0f3a2202d, 0x9b6928f713aed541, 0x1ae548bed7a50467, 0x42ae7581afe35d4f,
    0x813e65bff2840a47, 0x1f190d7134552cf4, 0xf1c65a838a7cb67d, 0x682010664fcce9e0,
    0xf511b2ade37dcbde, 0xc00ea491a2deddd7, 0xd0a4feb718982cea, 0x47a3a5a37f5278b6,
    0x85a153283196ec15, 0x865a15ac0810f0ef, 0xcf69d810a2f3f8c7, 0x7676d3f02efab27f,
    0xa5607f237b8a7b51, 0x3ba4caa4b43c0f9c, 0xd655aa154673ac3a, 0xeaaa93c3fba49a9e,
    0x7ddd4fd8545a136b, 0xad618084f0d59733, 0x2fe468ff2c5e4dae, 0xca25323ec4e4d710,
    0x6cc5c93dafe6528c, 0x603c25b91b95b955, 0x781ab6d4f4ac8fae, 0x134925b10236ab7c,
    0x649342fc38383701, 0xbd10154661cfee61, 0x602ce026009a5f4f, 0xed1dc3c024af05ab,
    0xe5e18abdb260f76d, 0xa03041d5e7f36904, 0x1878b65576545a3b, 0x557d56b561593519,
    0x043904ceb376f11f, 0xc2035029a656525b, 0x233922dc06b6dac0, 0x713d74d8d24eb9e7,
    0x1b0f797beddd378c, 0xf6885f84047084ff, 0x768750b54683040c, 0x81ee5883b26b7438,
    0x5a2028d22f70aadb, 0xecc784880452b79f, 0x40c6c5797923012e, 0x089ddcb82cb5db53,
    0x44f205ace341f12d, 0xb947da53a252f7e3, 0x68f7c144d191f296, 0x4476e4fba0af79a0,
    0x6e355277d6d0454c, 0x2d84f0606b0aa021, 0x0d9e53912dcaeb2a, 0x9c79568176f3946d,
    0xab45eae33f396b3e, 0xf6cc7657a80f01f1, 0xad355d538420491a, 0xd9a14c892d2ed422,
    0xaa5c6aa104ddbec0, 0x03b6f90c5f92cd2f, 0xe705c52fef20fc40, 0xd712e2967b6ff12a,
    0x05460bd647f17a19, 0x115702692f6473c1, 0x4f023c0c2338232a, 0xf32d6f0cd0e8b07d,
    0x24730c5dfdd768d4, 0xca607558e489623f, 0xd51a0ed3d6f568c3, 0xb1c17313873c878d,
    0xcf47ed00f12ff3d7, 0xefcda86b42a88e96, 0x19d745181965d1a8, 0xfaeda00f2bc5279b,
    0xf1f91855cb46bb07, 0x3cb850c9a65b7861, 0x7da4b3de3de505ab, 0xdd964d5c5d1d636d,
    0x65136ddbb35d6d3c, 0x9aa228c9e3f6a406, 0xa8184c2074841f58, 0xa11f6b05defc2dca,
    0x5e457c41194833df, 0x474c4b8a3f35757f, 0xec7b9e106829fa4b, 0xb6bd61af135bed2e,
    0x8912e8533d5adf2b, 0x61b1f8b9810a791a, 0x41b9cb43e7a94fc2, 0xc398c91c4f8109d0,
    0xaca5c7cc341958a0, 0x084c146dbfd7a4ca, 0x490f33c81639c1d9, 0x17647d26601958e0,
    0x0913dd9f493415bc, 0xc5d19be1a033cb6f, 0x67c5a7844457d092, 0x8d7841c9cc75d9a2,
    0x334edaa693d94f8f, 0x4f688a47ecd4537c, 0xc0f83e0da2063011, 0x817bee708bdfebd4,
    0x5ee82e1997a739c5, 0x22dab095b4f6ecd4, 0x38c27a8f079d1307, 0xef3329901a0453b1,
    0x773eed38ca820f34, 0x8e2a6a04a10f73db, 0xa7fba7eeb96708bd, 0xf2d4b0ff7edff68d,
    0xa9cc6531342c4f55, 0x0311fe29575e42da, 0x15b947d294fbe9b0, 0x2fdb4b671a0fa4ca,
    0x98ab6ac7e504f1d9, 0xef817cdb98933000, 0x43d6d1f3a0893660, 0x7eff1dfe586fec77,
    0x54e28a92cae1002c, 0x72187f5adb9a08fe, 0x3813ed57a6d464a7, 0x78d406fff603a8b0,
    0xe9643260d0b3d7a8, 0x07e5dead1ba368a7, 0x0e5510940f164e38, 0x1f872e90e21b47bf,
    0x627270bf8636ff90, 0x016075c0a820353d, 0x12c09ed23bbbbd6c, 0x4348b140da554b92,
    0xae48eb821c09f694, 0x6c15b8588dc66011, 0x22a207e5a97f9c34, 0xf2ffb597fa3fa48d,
    0x06b7a2af1a1dd511, 0x973ec1f4137ad19e, 0xc860e1f8ff47197d, 0x79e525c6a7e6ee66,
    0x38e4692fec9263dc, 0x5174407b58db8fe9, 0xb7c83e6a2b4cb169, 0x6c1de7eee0a1881a,
    0x8c04f3259572f32c, 0x7ca27efa8710bfe4, 0x8c4a94ad6a0a6808, 0x7666db85a053d77f,
    0x629ee1ba8eaaa9df, 0x2a9cad60387a911b, 0xd884405351f71574, 0x8c5b0e0ff03c1fb6,
    0x9aede6a7b547a247, 0xd644f711d6f50dc4, 0x7f085f15925b43b3, 0x446dab5f3361ccb5,
    0x99c971218dfd22c9, 0x496b537258d264dc, 0x5a51c6913af1e41b, 0x02e5c1117b22720e,
    0x8aecd1829e425317, 0x73de98bf2bb30406, 0x915e7e779fc6d518, 0x8bd64ab914fe4b67,
    0x8386018c2f22ab69, 0xfc646ef8df80b626, 0xc4e0c4f6d8fdafd5, 0xc95d3df681f2eb25,
    0xa37b880ab8fbae5e, 0xef12645947e82a28, 0x74ed9cec0ae2d41c, 0x7f273631e96df4ab,
    0x1421d1778c5b80bf, 0x1a5ceaa9c7dd7146, 0x2ef78fe073fb718c, 0x3d11463a031a928b,
    0xd8b523876e67ab9c, 0x732ae412b5c2f942, 0x225390d8c08e0517, 0x2fd8f79b3a6bb56a,
    0x73c96c6668c127a7, 0x2cf2a7b974c29d2a, 0x4f2897e89c8bed71, 0x345a408e7ca1f293,
    0xfabda7da4096bacd, 0x66455fb057f2c88f, 0x10f6db477ff38062, 0xefbe88025a1c3a3e,
    0xaffc8a36d8807023, 0x672621bf29fe84d7, 0x4ff626a66cdbc244, 0x3e085629bef1f29c,
    0xfddbf0378c3bb500, 0x26044079c2b17c6a, 0x66a8ac74fd912f01, 0xa254c1f44bfb3071,
    0x70b5d91561c81419, 0xadfedf453708cf8d, 0xa638c499c8265f47, 0xa29402ccb9b44732,
    0x671e9d105e813784, 0x3e417e961c8c9e70, 0x029873b0babb7de2, 0xd493828dd49b5815,
    0x1ca0755538e07657, 0xae700ce72cd98ce1, 0xc666ccf6b4db79d2, 0x0fa1db15437aa306,
    0xd055b4aedddd1a5a, 0xd33e7ec511e95353, 0x0dc310ad17f3ee9d, 0x0b8b3b50f36141c6,
    0x59493c9ada4e39a5, 0x739516e645b60545, 0xf3ce3e63d31519f5, 0x0b71303f18f4c178,
    0x8310cdb8f81e14a7, 0xb8540eabf2013e10, 0x472394c94bc03e3a, 0x17c860916efb9cc2,
    0x04473d1a5b39b11e, 0x55b228e5ca6d4104, 0xd15a4d67b6c7874b, 0x990bce1eaad90f54,
    0x2d3c9f18eff4c3f4, 0xc1ec8fdda73c2493, 0x861e4785c47cdbe9, 0x0ad78d2b123b25d1,
    0xf3f1539b3034d8ab, 0xa47fc8dc4fd2c0c7, 0x4ca3d4338c8252ef, 0xb6681bcdc9dca6eb,
    0x2bef2ad4039e7c2c, 0x37b4bab52cf3d1c6, 0x6d20515f21f16f85, 0x99d52a5f694d2a0e,
    0xa1964659002d4947, 0x3feb9f22e640f646, 0x54d25a7a9dd92f82, 0xa52c61511c248b81,
    0xf0f9caccf8088008, 0x984d7b1c107aa6ef, 0x1d8aabc71e05ecc3, 0x461b8f0cd0834fc5,
    0x3bea95d195bcf200, 0x1f688e85dce84be4, 0x3a4651cd3d118b20, 0xfa47023d4b81a9ef,
    0xba3c210e7e751055, 0x9d1026eb93026acc, 0x651012c366434c1c, 0xb61715334739481b,
    0x39c994c0b81bb4d6, 0x2fc65233dff72d4a, 0x6758419d4c6781fe, 0x9aaf83ddee9a1a85,
    0x1199027ee9179ce4, 0x69045618c08a4cc2, 0xc89b9d05cebf7c3e, 0x0778d7107de3249f,
    0x7975e149bd788fd4, 0x844143ad44c7164d, 0xdfdaea1bff361acc, 0x7917a1e12d87c4bc,
    0x785fd2d77c0b84fd, 0x50eb3d888c145d37, 0x7d8da20e5bfa4179, 0x8e7abe30a93e205f,
    0xa99eb3f94aeb3d0e, 0x5618ed96d6849421, 0xbfa82a589bb55312, 0xd9fab07bd8bb4857,
    0x61de56d6fc5a2a85, 0x935e68d194df4b84, 0x56b37f168b839518, 0xb6d5da6d0e6971e7,
    0x9ae11daf62c3375c, 0x52a38a46f2858328, 0xcecf0c1148c77f7e, 0x8ddb03ff68522c00,
    0xcce122fd1fb97858, 0xfffead876da0dc8c, 0xf8baa347fdc88641, 0xc21a602b1496ba11,
    0x2c6dc3baa48b9980, 0x7520935b42324bb3, 0x6f9ac696eb12afc5, 0x60076f4b811c41c0,
    0xba9d40b15445beb5, 0xa0f101568b5d9e7d, 0x91db64eccb5fe3b0, 0x5768b5a66ddbaebe,
    0x1b75b020fe93e8b0, 0x7e82c8284022b828, 0x7a271d81995b5cb8, 0x04c69a72c0c4c05c,
    0x12623b643d7f536a, 0x456bda59c139d423, 0xe24cc8c88618ea0f, 0xa1394daf3251d9df,
    0x3ca87f755eb076bb, 0xbc0bd99cdfcdf190, 0x38f215a182630e41, 0x7b2d61a4bc0cec01,
    0xebae28c19fcdae6b, 0x3194601d8b4514cd, 0x88031cc5c4eac543, 0x9811fffdd1eeb9d4,
    0xb403dbb7710f11c9, 0x9c0cbf8c4ef79072, 0xc04a340c6121cdb5, 0x7bcee3ded6da4f3b,
    0x8004d8507157c22f, 0xdf0f6e9e4d21333e, 0x347a1acdcc2d7521, 0x86c856a9e87a5f1c,
    0x1700284bd8c259c1, 0xb3dd9491b39ce1de, 0x919e886e71fd4cab, 0x327abafa9d4cddaf,
    0xa34664161ca8ed9f, 0x297a902066fd32da, 0x8a51c632f5332d50, 0x6e39328d26746f07,
    0xd314465aa7151ac9, 0x5322a7878308dcec, 0xfa4014f77aa86699, 0x407834de021809c8,
    0x8c62c65c484acbe4, 0x80b1d6af61e71620, 0xebe37b5e5c8055c5, 0xd2a8519d842254dc,
    0x45439a47f55ba3fb, 0x51bc4214f9042104, 0x9281bc2f8d7fb38b, 0xe9cf882745c3e46a,
    0x7fe2488cb4a42231, 0x503181c2305dbd8b, 0x4e1445acd6f1f166, 0xe00c9fb6544ad956,
    0x918ed14e8548d4fb, 0x898dc9cfbf85fdf2, 0xc05df0642298eaa0, 0x8a4babd4b1736bee,
    0x709371b0e3fd3ef2, 0xbeebb602287a0806, 0x3b9102bfd22b0910, 0x99c4ae7c60708270,
    0x64d3faf24a83134a, 0xb7ec6cd84614d14a, 0x9a84bbe32c44d3c6, 0x98494ceff011fd81,
    0xb9b1e4f1a4e4e154, 0xdf1167cdd187d1f0, 0x15ef4623ae6eeea9, 0x9f1330b9c599ef6e,
    0xb2df24ae68071f05, 0xa4a7b8bbff110ea7, 0x9f309bb46947d804, 0x2b066665992cc679,
    0x9ef230a435ad0181, 0xa64f3d7fb091f11c, 0x7105230fafaf24fd, 0x4ad7171fece00477,
    0xa1d4637013de645c, 0x59bd22fc641c2c82, 0x96d095a47cd995ff, 0xbed663b46b0da5a2,
    0x4c071d8297035157, 0xe1649c34de55008b, 0xd10be549a09ccd90, 0x92328e95067f5859,
    0x8920123f7ee589c7, 0xe12de3d5fdc0c48d, 0xa8c420bded7905d1, 0xeb56291f7fd5b46b,
    0xa3ce3b0a65bbb0c1, 0xa19f70844073b58c, 0x038c4b1174ad5603, 0x3cc3b942186751e4,
    0x18f5f4cc99394a14, 0xeec18999def92350, 0x0074c5472ff8d153, 0x9d040e60b32c5141,
    0x00fe592903cc6fbf, 0xba61bc7578d02be0, 0x4a8e47670f1900a2, 0xc34cf5d620ce3a69,
    0xcd21c263c66ef994, 0x92634e95b22bf76f, 0x2b052a9369c3b43a, 0x34ed5a1a03e539ae,
    0x96544eb5231c6ce8, 0xa74c805e6fb0a020, 0x79e63196d569cd19, 0x12b87539190cc48f,
    0xf642c910d95977aa, 0xe5de4b8847f2be1a, 0xe6312598388e1dd8, 0x5f3020c2602d9587,
    0xd8c74677cfdc59fc, 0x76907a959b4a95de, 0x061c9f4752159413, 0xf83d0965d325768a,
    0x0c655c430b5a6c3f, 0x2325db560fdea707, 0xb4898115206f04d9, 0xffea5c83a6ce574e,
    0x6be5b70b3abe3764, 0xebf56efff9497c77, 0x7db9d76984596d0c, 0xc477c79d24b4b9da,
    0xde2e4d3e1f023712, 0x838254041da77f8f, 0xedc38d0065169fdc, 0x8d0dc315280f7891,
    0x492a06973c181837, 0x75036180f52d08a3, 0x91f3c28f52444c26, 0x5a9d50efeac109e9,
    0x71275378a9f00f75, 0x4a0ccfe6f913f60d, 0x9703784f795c427a, 0x3865f616aab8f788,
    0x0d467e3d2b97588e, 0x1c9888d773374f30, 0xff68578f8df0cc15, 0xec86a53d32843eaf,
    0xbe65875efa1d87dd, 0x00d50d8dca43192a, 0xb715d077827698c9, 0xa267c17538b2e330,
    0x472a5b222759a51d, 0xc6b14e063f56476d, 0x2a32b2f86f9b8ba4, 0xad23b9f20aea71f9,
    0x035c4e05385e691e, 0x3aaed66bf5b50114, 0x7158abc7694c38a6, 0x7ce3af9af05f7c16,
    0xbb000902459654a7, 0x0c2c3959bb65ee90, 0x76423c6ade8e4fbb, 0x58934fcf97b95cde,
    0xad9ad807f271b185, 0x30fe9bfe68dee362, 0x8eee79341fa01190, 0x2c46d128da0ac401,
    0x8cab5192a8c18dbb, 0xf603f1721b4a5532, 0x1391b8ae3080f080, 0x22bcfce58051f561,
    0xa084bc7d0d570a3d, 0x57af81aec1990b96, 0xa909a9ffe3fe072e, 0x9e8873e5e68d9a77,
    0x75f101af0f261348, 0x3a2d17515f2dfb77, 0xf6bc53dad0fd2e3e, 0x81fc88f8a83fec6b,
    0x5ed2a23404baeeb1, 0x5d79dca4e4178942, 0xc81fd9dc7470dd77, 0x6fee948dd23f12c2,
    0x2853aacf6dc89fca, 0x5eac0cf503ea0ce3, 0x6f6a051668c43aec, 0x612d9a1a6b19669d,
    0x65d4dadf1c8d0b36, 0x10433bf89a239e16, 0x2f16029d631a91a3, 0x58e3bf33aeb64514,
    0x7492285538ae072e, 0x4b6dc37b30a83a77, 0x50e4261fbeb8b208, 0x402f7c3f97b07f53,
    0x070f1eb52291cc45, 0x3a663f49ffc96e83, 0x1bcb7cdd833459f3, 0x223f2b480646d1b7,
    0x791a611bb3ebd6a8, 0xf37ca933856ccc75, 0x5497a28bf9949f07, 0xf95d741ebcb21269,
    0x0d01f10edd55c1e4, 0x36cf3c0e795657b4, 0x186f9146698633ec, 0x605874d3e41e035f,
    0x15e4151d8424f160, 0x18772fbcdd91992d, 0x24c9ee390dd81b93, 0xb45c49315edffb7b,
    0x91fd188f411e2325, 0x269ef75373fa4c4e, 0x088cd6aeae273cda, 0xa996fd0e800052a4,
    0x0ad4240b53d6e9df, 0x405c55368041ac9b, 0x901a4e469dfd06fd, 0xe18aada332f68e3b,
    0xa22df1d42205d6e1, 0x651516ca5887282e, 0x9787a095444a7345, 0x6d2d176fc6483701,
    0x44cd7a041a0b0e61, 0x37f64dcb699f330f, 0x929a73e4004a564d, 0xd678303de2024e4c,
    0x61eae21c3b915903, 0x9ccd9152ceda93de, 0x220a5f3883616c47, 0x7375a4e1ee434d18,
    0x7bd0ce9f4e537a77, 0xf4b31e96e7b51e88, 0x01f210d76de29a6c, 0x492ba965df2f9364,
    0x5adf322e90b1df8f, 0xa3f3b08a22b1cb1c, 0x9217889aafa9f6e9, 0x3268ba03d65b5f0f,
    0x6c3a9e59b940c9f5, 0x27a5260c426e8018, 0x0d78a0f7f7b9fc9d, 0x28e36c00f18fe3e2,
    0x0a25416aba043e91, 0x1277956a321f30ab, 0x00b8a6f5a6858877, 0x62b545e4945eb724,
    0x1b66821898226ce8, 0xb62c241e40876420, 0x243bdd01ca20db61, 0x7982b949bb56b571,
    0xbe23479b86440023, 0x4c66ba881b34d1b7, 0x79ea71b31f585aa8, 0xea9cbccd47b3ee2d,
    0x8762397b31cdcb3d, 0x7d4625657b994f58, 0x96be8678321d336a, 0x8a01f4df80d89a63,
    0x9eed9ef5a221bb51, 0x26e674aa4e7aa11c, 0xb9e0090ef2362c5d, 0x6a251682688e392d,
    0x411b10c7e7b3e8d3, 0xcb2731f2e2409992, 0x10f8764d5c55b790, 0x34805f5b53163fcd,
    0x864f9a684c0e52f9, 0xb11af17d5563ae48, 0xcaf80fe287b5546d, 0x58517bd01837d7be,
    0x651dfe1ee6f1735e, 0xa2d02e16153f27ce, 0x41f8986b018d085d, 0x16b6b8b771c23ae5,
];

pub const SIDE_TO_MOVE_KEY: u64 = 0x4c5eac8f1ca1d179;

pub const CASTLING_KEYS: [u64; 4] = [
    0x857639c651126dff, 0x8ad1542b1f7a1f52, 0x41ec989f0b6db78d, 0xaa52d20113326d77,
];

pub const EN_PASSANT_FILE_KEYS: [u64; 8] = [
    0x4027e76cc17c56a2, 0x22c881b25f2bb715, 0xed446982fbdaf7e5, 0x08fdb765483145f3,
    0xb5404f5e6974095f, 0xbdf8704cc920173c, 0x652f6ad48cc6fdb2, 0x9827b518ffceb9d1,
];

/// Key of a piece of colour `c` and kind `k` on square `sq`.
#[verifier::opaque]
pub open spec fn piece_key(c: Color, k: PieceType, sq: int) -> u64 {
    PIECE_SQUARE_KEYS@[c.spec_index() * 384 + k.spec_index() * 64 + sq]
}

/// Key of castling right `i` (0 = White king side, 1 = White queen side,
/// 2 = Black king side, 3 = Black queen side).
#[verifier::opaque]
pub open spec fn castling_key(i: int) -> u64 {
    CASTLING_KEYS@[i]
}

/// Key of an en passant square on file `f`.
#[verifier::opaque]
pub open spec fn en_passant_key(f: int) -> u64 {
    EN_PASSANT_FILE_KEYS@[f]
}

/// The key of a piece on a square, as used by the board hash.
pub fn piece_square_key(c: Color, k: PieceType, sq: Square) -> (r: u64)
    requires
        sq < 64,
    ensures
        r == piece_key(c, k, sq as int),
{
    reveal(piece_key);
    PIECE_SQUARE_KEYS[c.index() * 384 + k.index() * 64 + sq as usize]
}

pub fn castling_key_of(i: usize) -> (r: u64)
    requires
        i < 4,
    ensures
        r == castling_key(i as int),
{
    reveal(castling_key);
    CASTLING_KEYS[i]
}

pub fn en_passant_key_of(f: u8) -> (r: u64)
    requires
        f < 8,
    ensures
        r == en_passant_key(f as int),
{
    reveal(en_passant_key);
    EN_PASSANT_FILE_KEYS[f as usize]
}

pub struct ZobristKeys {
    pub piece_square: [[[u64; 64]; 6]; 2],
    pub side_to_move: u64,
    pub castling: [u64; 4],
    pub en_passant_file: [u64; 8],
}

impl ZobristKeys {
    /// Every key of the set equals the corresponding key of the hash.
    pub open spec fn wf(&self) -> bool {
        &&& forall|c: int, k: int, s: int|
            0 <= c < 2 && 0 <= k < 6 && 0 <= s < 64 ==> #[trigger] self.piece_square[c][k][s]
                == piece_key(crate::types::color_of_index(c), crate::types::kind_of_index(k), s)
        &&& self.side_to_move == SIDE_TO_MOVE_KEY
        &&& forall|i: int| 0 <= i < 4 ==> #[trigger] self.castling[i] == castling_key(i)
        &&& forall|i: int| 0 <= i < 8 ==> #[trigger] self.en_passant_file[i] == en_passant_key(i)
    }

    pub fn new() -> (z: ZobristKeys)
        ensures
            z.wf(),
            z.side_to_move == SIDE_TO_MOVE_KEY,
            forall|i: int| 0 <= i < 4 ==> #[trigger] z.castling[i] == castling_key(i),
            forall|i: int| 0 <= i < 8 ==> #[trigger] z.en_passant_file[i] == en_passant_key(i),
    {
        let mut piece_square = [[[0u64; 64]; 6]; 2];
        let mut c: usize = 0;
        while c < 2
            invariant
                c <= 2,
                forall|ci: int, k: int, s: int|
                    0 <= ci < c && 0 <= k < 6 && 0 <= s < 64 ==> #[trigger] piece_square[ci][k][s]
                        == piece_key(crate::types::color_of_index(ci), crate::types::kind_of_index(k), s),
            decreases 2 - c,
        {
            let color = if c == 0 { Color::White } else { Color::Black };
            let mut k: usize = 0;
            let mut plane = [[0u64; 64]; 6];
            while k < 6
                invariant
                    c < 2,
                    k <= 6,
                    color == crate::types::color_of_index(c as int),
                    forall|ki: int, s: int|
                        0 <= ki < k && 0 <= s < 64 ==> #[trigger] plane[ki][s]
                            == piece_key(color, crate::types::kind_of_index(ki), s),
                decreases 6 - k,
            {
                let kind = if k == 0 {
                    PieceType::Pawn
                } else if k == 1 {
                    PieceType::Knight
                } else if k == 2 {
                    PieceType::Bishop
                } else if k == 3 {
                    PieceType::Rook
                } else if k == 4 {
                    PieceType::Queen
                } else {
                    PieceType::King
                };
                let mut row = [0u64; 64];
                let mut s: u8 = 0;
                while s < 64
                    invariant
                        s <= 64,
                        forall|si: int| 0 <= si < s ==> #[trigger] row[si] == piece_key(color, kind, si),
                    decreases 64 - s,
                {
                    row[s as usize] = piece_square_key(color, kind, s);
                    s = s + 1;
                }
                plane[k] = row;
                k = k + 1;
            }
            piece_square[c] = plane;
            c = c + 1;
        }
        let mut castling = [0u64; 4];
        let mut i: usize = 0;
        while i < 4
            invariant
                i <= 4,
                forall|j: int| 0 <= j < i ==> #[trigger] castling[j] == castling_key(j),
            decreases 4 - i,
        {
            castling[i] = castling_key_of(i);
            i = i + 1;
        }
        let mut en_passant_file = [0u64; 8];
        let mut f: u8 = 0;
        while f < 8
            invariant
                f <= 8,
                forall|j: int| 0 <= j < f ==> #[trigger] en_passant_file[j] == en_passant_key(j),
            decreases 8 - f,
        {
            en_passant_file[f as usize] = en_passant_key_of(f);
            f = f + 1;
        }
        ZobristKeys { piece_square, side_to_move: SIDE_TO_MOVE_KEY, castling, en_passant_file }
    }

    pub fn piece(&self, color: Color, piece: PieceType, sq: Square) -> (r: u64)
        requires
            self.wf(),
            sq < 64,
        ensures
            r == piece_key(color, piece, sq as int),
    {
        self.piece_square[color.index()][piece.index()][sq as usize]
    }
}

/// The Zobrist keys.
pub fn keys() -> (z: ZobristKeys)
    ensures
        z.wf(),
        z.side_to_move == SIDE_TO_MOVE_KEY,
        forall|i: int| 0 <= i < 4 ==> #[trigger] z.castling[i] == castling_key(i),
        forall|i: int| 0 <= i < 8 ==> #[trigger] z.en_passant_file[i] == en_passant_key(i),
{
    ZobristKeys::new()
}

/// State of the key generator after `n` steps from its seed.
pub open spec fn generator_state(n: nat) -> u64
    decreases n,
{
    if n == 0 {
        0x9E3779B97F4A7C15u64
    } else {
        crate::book::xorshift(generator_state((n - 1) as nat))
    }
}

/// Output number `n` (from 0) of the xorshift64* key generator.
pub open spec fn generator_output(n: nat) -> u64 {
    vstd::wrapping::u64_specs::wrapping_mul(generator_state(n + 1), 0x2545F4914F6CDD1Du64)
}

/// The first `count` outputs of the key generator: the keys above are its
/// first 781, in the order the module documentation gives.
pub fn generator_outputs(count: usize) -> (v: Vec<u64>)
    ensures
        v@.len() == count,
        forall|i: int| 0 <= i < count ==> #[trigger] v@[i] == generator_output(i as nat),
{
    let mut v: Vec<u64> = Vec::new();
    let mut x: u64 = 0x9E3779B97F4A7C15;
    let mut i: usize = 0;
    while i < count
        invariant
            i <= count,
            v@.len() == i,
            x == generator_state(i as nat),
            forall|j: int| 0 <= j < i ==> #[trigger] v@[j] == generator_output(j as nat),
        decreases count - i,
    {
        x = x ^ (x << 13u64);
        x = x ^ (x >> 7u64);
        x = x ^ (x << 17u64);
        proof {
            assert(x == generator_state((i + 1) as nat));
        }
        v.push(x.wrapping_mul(0x2545F4914F6CDD1D));
        i += 1;
    }
    v
}

} // verus!
